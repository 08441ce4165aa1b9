//! Diagnostics for Makefiles: parse errors and lint checks.

use vstd::prelude::*;
use vstd::string::StringSliceAdditionalSpecFns;

use crate::builtins::{is_known_variable, spec_is_known_variable, strs_view};
use crate::dep_graph::{accumulating_targets, cycle_names, lemma_graph_of_is_rules_graph, rules_graph, spec_accumulating_targets, cycles_view, DependencyGraph};
use crate::hover::{first_rule_index, first_rule_with_target, join, join_strings};
use crate::makefile::{
    ElementView, Makefile, MakefileView, NodeView, ParseErrorView, RecipeLineView, RuleView, VariableDefinitionView,
    VariableReferenceView, definition_references_view, errors_view, items_view, nodes_view,
    recipe_lines_view, references_view, rules_view, variables_view, ItemView, Parse, KIND_COMMENT,
    KIND_EXPR, KIND_INDENT, KIND_WHITESPACE,
};
use crate::position::{lsp_range, spec_offset_to_position, text_range_to_lsp_range, Position, Range, TextRange};
use crate::scip::defined_names;
use crate::strs::{bytes_contain, contains_string, push_str, strings_view, utf8};

verus! {

/// Severity of a diagnostic.
#[derive(Clone, Copy, Debug, PartialEq, Eq, Structural)]
pub enum DiagnosticSeverity {
    Error,
    Warning,
    Information,
    Hint,
}

/// A diagnostic: a range of the document with a message.
pub struct Diagnostic {
    pub range: Range,
    pub severity: Option<DiagnosticSeverity>,
    pub code: Option<String>,
    pub source: Option<String>,
    pub message: String,
}

pub struct DiagnosticView {
    pub range: Range,
    pub severity: Option<DiagnosticSeverity>,
    pub code: Option<Seq<char>>,
    pub source: Option<Seq<char>>,
    pub message: Seq<char>,
}

pub open spec fn opt_view(o: Option<String>) -> Option<Seq<char>> {
    match o {
        Some(s) => Some(s@),
        None => None,
    }
}

impl View for Diagnostic {
    type V = DiagnosticView;

    open spec fn view(&self) -> DiagnosticView {
        DiagnosticView {
            range: self.range,
            severity: self.severity,
            code: opt_view(self.code),
            source: opt_view(self.source),
            message: self.message@,
        }
    }
}

pub open spec fn diagnostics_view(v: Seq<Diagnostic>) -> Seq<DiagnosticView> {
    v.map_values(|d: Diagnostic| d@)
}

/// The name under which the diagnostics are reported.
pub open spec fn source_name() -> Seq<char> {
    "makefile-lsp"@
}

/// A diagnostic of this server.
pub open spec fn diag(range: Range, severity: DiagnosticSeverity, code: Seq<char>, message: Seq<char>) -> DiagnosticView {
    DiagnosticView { range, severity: Some(severity), code: Some(code), source: Some(source_name()), message }
}

fn make_diagnostic(range: Range, severity: DiagnosticSeverity, code: &str, message: String) -> (d: Diagnostic)
    ensures
        d@ == diag(range, severity, code@, message@),
{
    Diagnostic {
        range,
        severity: Some(severity),
        code: Some(code.to_owned()),
        source: Some("makefile-lsp".to_owned()),
        message,
    }
}

/// `a`, `b` and `c` joined.
fn concat3(a: &str, b: &str, c: &str) -> (s: String)
    ensures
        s@ == a@ + b@ + c@,
{
    let mut s = String::new();
    push_str(&mut s, a);
    push_str(&mut s, b);
    push_str(&mut s, c);
    s
}

// ---------------------------------------------------------------------------
// Parse errors

/// A parse error as a diagnostic.
pub open spec fn parse_error_diag(bs: Seq<u8>, e: ParseErrorView) -> DiagnosticView {
    diag(
        lsp_range(bs, e.range),
        DiagnosticSeverity::Error,
        match e.code {
            Some(c) => c,
            None => "parse-error"@,
        },
        e.message,
    )
}

fn parse_error_diagnostics(text: &str, parsed: &Parse) -> (r: Vec<Diagnostic>)
    requires
        text.spec_bytes().len() <= u32::MAX,
    ensures
        diagnostics_view(r@) == errors_view(parsed.errors@).map_values(
            |e: ParseErrorView| parse_error_diag(text.spec_bytes(), e),
        ),
{
    let ghost es = errors_view(parsed.errors@);
    let mut out: Vec<Diagnostic> = Vec::new();
    let mut i: usize = 0;
    while i < parsed.errors.len()
        invariant
            i <= parsed.errors@.len(),
            text.spec_bytes().len() <= u32::MAX,
            es == errors_view(parsed.errors@),
            diagnostics_view(out@) == es.subrange(0, i as int).map_values(
                |e: ParseErrorView| parse_error_diag(text.spec_bytes(), e),
            ),
        decreases parsed.errors@.len() - i,
    {
        let e = &parsed.errors[i];
        let ghost before = diagnostics_view(out@);
        let range = text_range_to_lsp_range(text, e.range);
        let d = match &e.code {
            Some(c) => make_diagnostic(range, DiagnosticSeverity::Error, c.as_str(), e.message.clone()),
            None => make_diagnostic(range, DiagnosticSeverity::Error, "parse-error", e.message.clone()),
        };
        out.push(d);
        assert(es[i as int] == e@);
        assert(diagnostics_view(out@) =~= before + seq![d@]);
        assert(es.subrange(0, i + 1).map_values(|e: ParseErrorView| parse_error_diag(text.spec_bytes(), e))
            =~= es.subrange(0, i as int).map_values(|e: ParseErrorView| parse_error_diag(text.spec_bytes(), e))
            + seq![parse_error_diag(text.spec_bytes(), es[i as int])]);
        i += 1;
    }
    assert(es.subrange(0, i as int) =~= es);
    out
}

// ---------------------------------------------------------------------------
// Variable references

/// A reference to a name that is neither known to Make nor defined in the
/// file.
pub open spec fn undefined_reference_diags(bs: Seq<u8>, refs: Seq<VariableReferenceView>, defined: Seq<Seq<char>>) -> Seq<DiagnosticView>
    decreases refs.len(),
{
    if refs.len() == 0 {
        seq![]
    } else {
        let r = refs.last();
        undefined_reference_diags(bs, refs.drop_last(), defined) + match r.name {
            Some(n) => if spec_is_known_variable(n) || defined.contains(n) {
                seq![]
            } else {
                seq![diag(lsp_range(bs, r.range), DiagnosticSeverity::Warning, "undefined-variable"@,
                    "variable '"@ + n + "' is not defined"@)]
            },
            None => seq![],
        }
    }
}

/// Check for references to undefined variables.
fn check_undefined_variables(text: &str, makefile: &Makefile) -> (r: Vec<Diagnostic>)
    requires
        text.spec_bytes().len() <= u32::MAX,
    ensures
        diagnostics_view(r@) == undefined_reference_diags(
            text.spec_bytes(),
            references_view(makefile.references@),
            defined_names(variables_view(makefile.variables@)),
        ),
{
    let defined = crate::scip::defined_variable_names(makefile);
    let ghost refs = references_view(makefile.references@);
    let ghost names = strings_view(defined@);
    let mut out: Vec<Diagnostic> = Vec::new();
    let mut i: usize = 0;
    while i < makefile.references.len()
        invariant
            i <= makefile.references@.len(),
            text.spec_bytes().len() <= u32::MAX,
            refs == references_view(makefile.references@),
            names == strings_view(defined@),
            names == defined_names(variables_view(makefile.variables@)),
            diagnostics_view(out@) == undefined_reference_diags(text.spec_bytes(), refs.subrange(0, i as int), names),
        decreases makefile.references@.len() - i,
    {
        let r = &makefile.references[i];
        assert(refs.subrange(0, i + 1).drop_last() =~= refs.subrange(0, i as int));
        assert(refs.subrange(0, i + 1).last() == r@);
        let ghost before = diagnostics_view(out@);
        if let Some(name) = &r.name {
            if !is_known_variable(name.as_str()) && !contains_string(&defined, name.as_str()) {
                let range = text_range_to_lsp_range(text, r.range);
                let d = make_diagnostic(
                    range,
                    DiagnosticSeverity::Warning,
                    "undefined-variable",
                    concat3("variable '", name.as_str(), "' is not defined"),
                );
                out.push(d);
                assert(diagnostics_view(out@) =~= before + seq![d@]);
            }
        }
        assert(diagnostics_view(out@) =~= undefined_reference_diags(text.spec_bytes(), refs.subrange(0, i + 1), names));
        i += 1;
    }
    assert(refs.subrange(0, i as int) =~= refs);
    out
}

/// A definition with `=` that references its own name.
pub open spec fn self_reference_diags(
    bs: Seq<u8>,
    vars: Seq<VariableDefinitionView>,
    refs: Seq<Seq<VariableReferenceView>>,
) -> Seq<DiagnosticView>
    decreases vars.len(),
{
    if vars.len() == 0 {
        seq![]
    } else {
        let i = vars.len() - 1;
        let v = vars[i];
        self_reference_diags(bs, vars.drop_last(), refs) + match v.name {
            Some(n) => if v.operator == Some("="@) && i < refs.len() {
                refs[i].filter(|r: VariableReferenceView| r.name == Some(n)).map_values(
                    |r: VariableReferenceView| diag(
                        lsp_range(bs, r.range),
                        DiagnosticSeverity::Warning,
                        "recursive-variable-reference"@,
                        "variable '"@ + n + "' references itself in a recursively-expanded definition"@,
                    ),
                )
            } else {
                seq![]
            },
            None => seq![],
        }
    }
}

/// Check for recursive variables that reference themselves, which causes
/// infinite expansion. Only `=` (recursively-expanded) assignments are
/// flagged: `:=` and the like expand at once.
fn check_recursive_variable_self_reference(text: &str, makefile: &Makefile) -> (r: Vec<Diagnostic>)
    requires
        text.spec_bytes().len() <= u32::MAX,
    ensures
        diagnostics_view(r@) == self_reference_diags(
            text.spec_bytes(),
            variables_view(makefile.variables@),
            definition_references_view(makefile.definition_references@),
        ),
{
    let ghost vars = variables_view(makefile.variables@);
    let ghost drefs = definition_references_view(makefile.definition_references@);
    let mut out: Vec<Diagnostic> = Vec::new();
    let mut i: usize = 0;
    while i < makefile.variables.len()
        invariant
            i <= makefile.variables@.len(),
            text.spec_bytes().len() <= u32::MAX,
            vars == variables_view(makefile.variables@),
            drefs == definition_references_view(makefile.definition_references@),
            diagnostics_view(out@) == self_reference_diags(text.spec_bytes(), vars.subrange(0, i as int), drefs),
        decreases makefile.variables@.len() - i,
    {
        let var = &makefile.variables[i];
        let ghost sub = vars.subrange(0, i + 1);
        assert(sub.drop_last() =~= vars.subrange(0, i as int));
        assert(sub[sub.len() - 1] == var@);
        let ghost before = diagnostics_view(out@);
        if let Some(name) = &var.name {
            let is_recursive = match &var.operator {
                Some(op) => crate::strs::str_eq(op.as_str(), "="),
                None => false,
            };
            proof {
                reveal_strlit("=");
            }
            if is_recursive && i < makefile.definition_references.len() {
                let refs = &makefile.definition_references[i];
                let ghost rv = references_view(refs@);
                assert(drefs[i as int] == rv);
                let mut k: usize = 0;
                while k < refs.len()
                    invariant
                        k <= refs@.len(),
                        text.spec_bytes().len() <= u32::MAX,
                        rv == references_view(refs@),
                        diagnostics_view(out@) == before + rv.subrange(0, k as int).filter(
                            |r: VariableReferenceView| r.name == Some(name@),
                        ).map_values(
                            |r: VariableReferenceView| diag(
                                lsp_range(text.spec_bytes(), r.range),
                                DiagnosticSeverity::Warning,
                                "recursive-variable-reference"@,
                                "variable '"@ + name@ + "' references itself in a recursively-expanded definition"@,
                            ),
                        ),
                    decreases refs@.len() - k,
                {
                    let r = &refs[k];
                    let ghost prev = diagnostics_view(out@);
                    let ghost f = |r: VariableReferenceView| r.name == Some(name@);
                    assert(rv.subrange(0, k + 1).drop_last() =~= rv.subrange(0, k as int));
                    assert(rv[k as int] == r@);
                    let same = match &r.name {
                        Some(n) => crate::strs::str_eq(n.as_str(), name.as_str()),
                        None => false,
                    };
                    if same {
                        let range = text_range_to_lsp_range(text, r.range);
                        let d = make_diagnostic(
                            range,
                            DiagnosticSeverity::Warning,
                            "recursive-variable-reference",
                            concat3("variable '", name.as_str(), "' references itself in a recursively-expanded definition"),
                        );
                        out.push(d);
                        assert(diagnostics_view(out@) =~= prev + seq![d@]);
                    }
                    reveal(Seq::filter);
                    assert(rv.subrange(0, k + 1).filter(f) =~= rv.subrange(0, k as int).filter(f) + if f(r@) {
                        seq![r@]
                    } else {
                        seq![]
                    });
                    k += 1;
                }
                assert(rv.subrange(0, k as int) =~= rv);
            }
        }
        assert(diagnostics_view(out@) =~= self_reference_diags(text.spec_bytes(), sub, drefs));
        i += 1;
    }
    assert(vars.subrange(0, i as int) =~= vars);
    out
}

/// References without a name, like `$()` or `${}`.
pub open spec fn empty_reference_diags(bs: Seq<u8>, refs: Seq<VariableReferenceView>) -> Seq<DiagnosticView> {
    refs.filter(|r: VariableReferenceView| r.name is None).map_values(
        |r: VariableReferenceView| diag(
            lsp_range(bs, r.range),
            DiagnosticSeverity::Warning,
            "empty-variable-reference"@,
            "empty variable reference"@,
        ),
    )
}

/// Check for empty variable references like `$()` or `${}`.
fn check_empty_variable_references(text: &str, makefile: &Makefile) -> (r: Vec<Diagnostic>)
    requires
        text.spec_bytes().len() <= u32::MAX,
    ensures
        diagnostics_view(r@) == empty_reference_diags(text.spec_bytes(), references_view(makefile.references@)),
{
    let ghost refs = references_view(makefile.references@);
    let ghost f = |r: VariableReferenceView| r.name is None;
    let ghost g = |r: VariableReferenceView| diag(
        lsp_range(text.spec_bytes(), r.range),
        DiagnosticSeverity::Warning,
        "empty-variable-reference"@,
        "empty variable reference"@,
    );
    let mut out: Vec<Diagnostic> = Vec::new();
    let mut i: usize = 0;
    while i < makefile.references.len()
        invariant
            i <= makefile.references@.len(),
            text.spec_bytes().len() <= u32::MAX,
            refs == references_view(makefile.references@),
            f == (|r: VariableReferenceView| r.name is None),
            g == (|r: VariableReferenceView| diag(
                lsp_range(text.spec_bytes(), r.range),
                DiagnosticSeverity::Warning,
                "empty-variable-reference"@,
                "empty variable reference"@,
            )),
            diagnostics_view(out@) == refs.subrange(0, i as int).filter(f).map_values(g),
        decreases makefile.references@.len() - i,
    {
        let r = &makefile.references[i];
        let ghost before = diagnostics_view(out@);
        assert(refs.subrange(0, i + 1).drop_last() =~= refs.subrange(0, i as int));
        assert(refs[i as int] == r@);
        if r.name.is_none() {
            let range = text_range_to_lsp_range(text, r.range);
            let d = make_diagnostic(
                range,
                DiagnosticSeverity::Warning,
                "empty-variable-reference",
                "empty variable reference".to_owned(),
            );
            assert(d@ == g(r@));
            out.push(d);
            assert(diagnostics_view(out@) =~= before + seq![d@]);
        }
        reveal(Seq::filter);
        assert(refs.subrange(0, i + 1).filter(f) =~= refs.subrange(0, i as int).filter(f) + if f(r@) {
            seq![r@]
        } else {
            seq![]
        });
        let ghost a = refs.subrange(0, i as int).filter(f);
        if r.name.is_none() {
            assert((a + seq![r@]).map_values(g) =~= a.map_values(g) + seq![g(r@)]);
        } else {
            assert(a + seq![] =~= a);
        }
        assert(diagnostics_view(out@) =~= refs.subrange(0, i + 1).filter(f).map_values(g));
        i += 1;
    }
    assert(refs.subrange(0, i as int) =~= refs);
    out
}


// ---------------------------------------------------------------------------
// Rules

/// A rule that lists one of its own targets as a prerequisite.
pub open spec fn rule_self_dependency_diags(bs: Seq<u8>, r: RuleView) -> Seq<DiagnosticView> {
    r.prerequisites.filter(|p: Seq<char>| r.targets.contains(p)).map_values(
        |p: Seq<char>| diag(
            lsp_range(bs, r.range),
            DiagnosticSeverity::Warning,
            "self-dependency"@,
            "target '"@ + p + "' lists itself as a prerequisite"@,
        ),
    )
}

pub open spec fn self_dependency_diags(bs: Seq<u8>, rules: Seq<RuleView>) -> Seq<DiagnosticView>
    decreases rules.len(),
{
    if rules.len() == 0 {
        seq![]
    } else {
        self_dependency_diags(bs, rules.drop_last()) + rule_self_dependency_diags(bs, rules.last())
    }
}

/// Check for targets that list themselves as prerequisites.
fn check_self_dependency(text: &str, makefile: &Makefile) -> (r: Vec<Diagnostic>)
    requires
        text.spec_bytes().len() <= u32::MAX,
    ensures
        diagnostics_view(r@) == self_dependency_diags(text.spec_bytes(), rules_view(makefile.rules@)),
{
    let ghost rules = rules_view(makefile.rules@);
    let mut out: Vec<Diagnostic> = Vec::new();
    let mut i: usize = 0;
    while i < makefile.rules.len()
        invariant
            i <= makefile.rules@.len(),
            text.spec_bytes().len() <= u32::MAX,
            rules == rules_view(makefile.rules@),
            diagnostics_view(out@) == self_dependency_diags(text.spec_bytes(), rules.subrange(0, i as int)),
        decreases makefile.rules@.len() - i,
    {
        let rule = &makefile.rules[i];
        assert(rules.subrange(0, i + 1).drop_last() =~= rules.subrange(0, i as int));
        assert(rules.subrange(0, i + 1).last() == rule@);
        let ghost before = diagnostics_view(out@);
        let ghost ps = strings_view(rule.prerequisites@);
        let ghost ts = strings_view(rule.targets@);
        let ghost f = |p: Seq<char>| ts.contains(p);
        let ghost g = |p: Seq<char>| diag(
            lsp_range(text.spec_bytes(), rule.range),
            DiagnosticSeverity::Warning,
            "self-dependency"@,
            "target '"@ + p + "' lists itself as a prerequisite"@,
        );
        let mut k: usize = 0;
        while k < rule.prerequisites.len()
            invariant
                k <= rule.prerequisites@.len(),
                text.spec_bytes().len() <= u32::MAX,
                ps == strings_view(rule.prerequisites@),
                ts == strings_view(rule.targets@),
                f == (|p: Seq<char>| ts.contains(p)),
                g == (|p: Seq<char>| diag(
                    lsp_range(text.spec_bytes(), rule.range),
                    DiagnosticSeverity::Warning,
                    "self-dependency"@,
                    "target '"@ + p + "' lists itself as a prerequisite"@,
                )),
                diagnostics_view(out@) == before + ps.subrange(0, k as int).filter(f).map_values(g),
            decreases rule.prerequisites@.len() - k,
        {
            let p = &rule.prerequisites[k];
            let ghost prev = diagnostics_view(out@);
            let ghost a = ps.subrange(0, k as int).filter(f);
            assert(ps.subrange(0, k + 1).drop_last() =~= ps.subrange(0, k as int));
            assert(ps[k as int] == p@);
            if contains_string(&rule.targets, p.as_str()) {
                let range = text_range_to_lsp_range(text, rule.range);
                let d = make_diagnostic(
                    range,
                    DiagnosticSeverity::Warning,
                    "self-dependency",
                    concat3("target '", p.as_str(), "' lists itself as a prerequisite"),
                );
                assert(d@ == g(p@));
                out.push(d);
                assert(diagnostics_view(out@) =~= prev + seq![d@]);
                assert((a + seq![p@]).map_values(g) =~= a.map_values(g) + seq![g(p@)]);
            } else {
                assert(a + seq![] =~= a);
            }
            reveal(Seq::filter);
            assert(ps.subrange(0, k + 1).filter(f) =~= a + if f(p@) {
                seq![p@]
            } else {
                seq![]
            });
            k += 1;
        }
        assert(ps.subrange(0, k as int) =~= ps);
        assert(diagnostics_view(out@) =~= self_dependency_diags(text.spec_bytes(), rules.subrange(0, i + 1)));
        i += 1;
    }
    assert(rules.subrange(0, i as int) =~= rules);
    out
}

/// The decimal digits of `n`.
pub open spec fn decimal(n: nat) -> Seq<char>
    decreases n,
{
    if n < 10 {
        seq![(('0' as u32) + n) as char]
    } else {
        decimal(n / 10) + seq![(('0' as u32) + n % 10) as char]
    }
}

/// The decimal digit `d`.
fn digit_str(d: u64) -> (s: &'static str)
    requires
        d < 10,
    ensures
        s@ == seq![(('0' as u32) + d) as char],
{
    match d {
        0 => {
            proof {
                reveal_strlit("0");
            }
            "0"
        },
        1 => {
            proof {
                reveal_strlit("1");
            }
            "1"
        },
        2 => {
            proof {
                reveal_strlit("2");
            }
            "2"
        },
        3 => {
            proof {
                reveal_strlit("3");
            }
            "3"
        },
        4 => {
            proof {
                reveal_strlit("4");
            }
            "4"
        },
        5 => {
            proof {
                reveal_strlit("5");
            }
            "5"
        },
        6 => {
            proof {
                reveal_strlit("6");
            }
            "6"
        },
        7 => {
            proof {
                reveal_strlit("7");
            }
            "7"
        },
        8 => {
            proof {
                reveal_strlit("8");
            }
            "8"
        },
        _ => {
            proof {
                reveal_strlit("9");
            }
            "9"
        },
    }
}

/// The decimal digits of `n`, most significant first.
pub(crate) fn decimal_string(n: u64) -> (s: String)
    ensures
        s@ == decimal(n as nat),
    decreases n,
{
    if n < 10 {
        let mut s = String::new();
        push_str(&mut s, digit_str(n));
        s
    } else {
        let mut s = decimal_string(n / 10);
        push_str(&mut s, digit_str(n % 10));
        s
    }
}

/// A target that takes part in the duplicate check: not a pattern, not an
/// accumulating special target, and not in a double-colon rule.
pub open spec fn duplicate_candidate(t: Seq<char>, r: RuleView) -> bool {
    !utf8(t).contains(0x25) && !spec_accumulating_targets().contains(t) && !r.double_colon
}

/// The candidate targets of a rule, with the rule's range.
pub open spec fn rule_candidates(r: RuleView) -> Seq<(Seq<char>, TextRange)> {
    r.targets.filter(|t: Seq<char>| duplicate_candidate(t, r)).map_values(|t: Seq<char>| (t, r.range))
}

pub open spec fn all_candidates(rules: Seq<RuleView>) -> Seq<(Seq<char>, TextRange)>
    decreases rules.len(),
{
    if rules.len() == 0 {
        seq![]
    } else {
        all_candidates(rules.drop_last()) + rule_candidates(rules.last())
    }
}

/// Index of the first candidate at or after `k` for the target `t`, or the
/// number of candidates.
pub open spec fn first_candidate(c: Seq<(Seq<char>, TextRange)>, t: Seq<char>, k: int) -> int
    decreases c.len() - k,
{
    if k < 0 || k >= c.len() {
        c.len() as int
    } else if c[k].0 == t {
        k
    } else {
        first_candidate(c, t, k + 1)
    }
}

/// The range of the target `t` at the start of the rule range `rr`.
pub open spec fn target_name_range(bs: Seq<u8>, t: Seq<char>, rr: TextRange) -> Range {
    let s = spec_offset_to_position(bs, rr.start as int);
    Range { start: s, end: Position { line: s.line, character: s.character.wrapping_add(utf8(t).len() as u32) } }
}

/// The later candidates for a target already defined by an earlier one,
/// naming the line of the first.
pub open spec fn duplicate_diags(bs: Seq<u8>, c: Seq<(Seq<char>, TextRange)>) -> Seq<DiagnosticView>
    decreases c.len(),
{
    if c.len() == 0 {
        seq![]
    } else {
        let prior = c.drop_last();
        let t = c.last().0;
        let k = first_candidate(prior, t, 0);
        duplicate_diags(bs, prior) + if k < prior.len() {
            seq![diag(
                target_name_range(bs, t, c.last().1),
                DiagnosticSeverity::Warning,
                "duplicate-target"@,
                "target '"@ + t + "' already defined on line "@ + decimal(
                    (spec_offset_to_position(bs, prior[k].1.start as int).line + 1) as nat,
                ),
            )]
        } else {
            seq![]
        }
    }
}

proof fn lemma_first_candidate_bounds(c: Seq<(Seq<char>, TextRange)>, t: Seq<char>, k: int)
    requires
        0 <= k <= c.len(),
    ensures
        k <= first_candidate(c, t, k) <= c.len(),
        first_candidate(c, t, k) < c.len() ==> c[first_candidate(c, t, k)].0 == t,
        forall|m: int| k <= m < first_candidate(c, t, k) ==> c[m].0 != t,
    decreases c.len() - k,
{
    if k < c.len() && c[k].0 != t {
        lemma_first_candidate_bounds(c, t, k + 1);
        assert forall|m: int| k <= m < first_candidate(c, t, k) implies c[m].0 != t by {
            if m > k {
                assert(k + 1 <= m < first_candidate(c, t, k + 1));
            }
        }
    }
}

/// Index of the first entry of `seen` named `t`.
fn first_seen(seen: &Vec<(String, u32)>, t: &str) -> (r: Option<usize>)
    ensures
        match r {
            Some(k) => k < seen@.len() && seen@[k as int].0@ == t@ && forall|m: int| 0 <= m < k ==> seen@[m].0@ != t@,
            None => forall|m: int| 0 <= m < seen@.len() ==> seen@[m].0@ != t@,
        },
{
    let mut k: usize = 0;
    while k < seen.len()
        invariant
            k <= seen@.len(),
            forall|m: int| 0 <= m < k ==> seen@[m].0@ != t@,
        decreases seen@.len() - k,
    {
        if crate::strs::str_eq(seen[k].0.as_str(), t) {
            return Some(k);
        }
        k += 1;
    }
    None
}

/// The candidates as `seen` records them: the target and the line of its
/// rule.
pub open spec fn seen_view(bs: Seq<u8>, c: Seq<(Seq<char>, TextRange)>) -> Seq<(Seq<char>, u32)> {
    c.map_values(|e: (Seq<char>, TextRange)| (e.0, spec_offset_to_position(bs, e.1.start as int).line))
}

/// Check for duplicate target definitions: when a target appears in several
/// single-colon rules, only the last recipe is used.
fn check_duplicate_targets(text: &str, makefile: &Makefile) -> (r: Vec<Diagnostic>)
    requires
        text.spec_bytes().len() <= u32::MAX,
    ensures
        diagnostics_view(r@) == duplicate_diags(text.spec_bytes(), all_candidates(rules_view(makefile.rules@))),
{
    let ghost bs = text.spec_bytes();
    let ghost rules = rules_view(makefile.rules@);
    let acc = accumulating_targets();
    let mut seen: Vec<(String, u32)> = Vec::new();
    let ghost mut cands: Seq<(Seq<char>, TextRange)> = seq![];
    let mut out: Vec<Diagnostic> = Vec::new();
    let mut i: usize = 0;
    while i < makefile.rules.len()
        invariant
            i <= makefile.rules@.len(),
            bs == text.spec_bytes(),
            bs.len() <= u32::MAX,
            rules == rules_view(makefile.rules@),
            strs_view(acc@) == spec_accumulating_targets(),
            cands == all_candidates(rules.subrange(0, i as int)),
            seen@.map_values(|e: (String, u32)| (e.0@, e.1)) == seen_view(bs, cands),
            diagnostics_view(out@) == duplicate_diags(bs, cands),
        decreases makefile.rules@.len() - i,
    {
        let rule = &makefile.rules[i];
        assert(rules.subrange(0, i + 1).drop_last() =~= rules.subrange(0, i as int));
        assert(rules.subrange(0, i + 1).last() == rule@);
        let ghost start_cands = cands;
        let ghost ts = strings_view(rule.targets@);
        let ghost f = |t: Seq<char>| duplicate_candidate(t, rule@);
        let ghost g = |t: Seq<char>| (t, rule.range);
        let mut k: usize = 0;
        while k < rule.targets.len()
            invariant
                k <= rule.targets@.len(),
                bs == text.spec_bytes(),
                bs.len() <= u32::MAX,
                strs_view(acc@) == spec_accumulating_targets(),
                ts == strings_view(rule.targets@),
                f == (|t: Seq<char>| duplicate_candidate(t, rule@)),
                g == (|t: Seq<char>| (t, rule.range)),
                cands == start_cands + ts.subrange(0, k as int).filter(f).map_values(g),
                seen@.map_values(|e: (String, u32)| (e.0@, e.1)) == seen_view(bs, cands),
                diagnostics_view(out@) == duplicate_diags(bs, cands),
            decreases rule.targets@.len() - k,
        {
            let t = &rule.targets[k];
            let ghost a = ts.subrange(0, k as int).filter(f);
            assert(ts.subrange(0, k + 1).drop_last() =~= ts.subrange(0, k as int));
            assert(ts[k as int] == t@);
            reveal(Seq::filter);
            let is_candidate = !bytes_contain(t.as_str().as_bytes(), 0x25) && !crate::builtins::contains_str(&acc, t.as_str())
                && !rule.double_colon;
            if is_candidate {
                assert(f(t@));
                let ghost prior = cands;
                let rule_range = text_range_to_lsp_range(text, rule.range);
                let tlen = t.as_str().as_bytes().len() as u32;
                let target_range = Range {
                    start: rule_range.start,
                    end: Position::new(rule_range.start.line, rule_range.start.character.wrapping_add(tlen)),
                };
                assert(target_range == target_name_range(bs, t@, rule.range));
                proof {
                    lemma_first_candidate_bounds(prior, t@, 0);
                }
                match first_seen(&seen, t.as_str()) {
                    Some(j) => {
                        let ghost sv = seen@.map_values(|e: (String, u32)| (e.0@, e.1));
                        assert(sv == seen_view(bs, prior));
                        assert(sv.len() == prior.len());
                        assert(sv[j as int] == (seen@[j as int].0@, seen@[j as int].1));
                        assert(seen_view(bs, prior)[j as int].0 == prior[j as int].0);
                        assert(prior[j as int].0 == t@);
                        assert forall|m: int| 0 <= m < j implies prior[m].0 != t@ by {
                            assert(sv[m] == (seen@[m].0@, seen@[m].1));
                            assert(seen_view(bs, prior)[m].0 == prior[m].0);
                        }
                        proof {
                            lemma_first_candidate_bounds(prior, t@, 0);
                            if first_candidate(prior, t@, 0) < j {
                                let fc = first_candidate(prior, t@, 0);
                                assert(prior[fc].0 == t@);
                            }
                        }
                        assert(first_candidate(prior, t@, 0) == j);
                        let line = seen[j].1;
                        assert(line == spec_offset_to_position(bs, prior[j as int].1.start as int).line);
                        let mut msg = concat3("target '", t.as_str(), "' already defined on line ");
                        let num = decimal_string(line as u64 + 1);
                        push_str(&mut msg, num.as_str());
                        let d = make_diagnostic(target_range, DiagnosticSeverity::Warning, "duplicate-target", msg);
                        let ghost before = diagnostics_view(out@);
                        out.push(d);
                        assert(diagnostics_view(out@) =~= before + seq![d@]);
                    },
                    None => {
                        let ghost sv = seen@.map_values(|e: (String, u32)| (e.0@, e.1));
                        assert(sv == seen_view(bs, prior));
                        assert(sv.len() == prior.len());
                        assert forall|m: int| 0 <= m < prior.len() implies prior[m].0 != t@ by {
                            assert(sv[m] == (seen@[m].0@, seen@[m].1));
                            assert(seen_view(bs, prior)[m].0 == prior[m].0);
                        }
                        proof {
                            lemma_first_candidate_bounds(prior, t@, 0);
                            if first_candidate(prior, t@, 0) < prior.len() {
                                let fc = first_candidate(prior, t@, 0);
                                assert(prior[fc].0 == t@);
                            }
                        }
                        assert(diagnostics_view(out@) =~= duplicate_diags(bs, prior) + seq![]);
                    },
                }
                let ghost before_seen = seen@.map_values(|e: (String, u32)| (e.0@, e.1));
                let entry = (t.clone(), rule_range.start.line);
                seen.push(entry);
                proof {
                    cands = prior.push((t@, rule.range));
                    assert((prior + seq![(t@, rule.range)]).drop_last() =~= prior);
                    assert(prior.push((t@, rule.range)) =~= prior + seq![(t@, rule.range)]);
                    assert(seen@.map_values(|e: (String, u32)| (e.0@, e.1)) =~= before_seen + seq![(t@, rule_range.start.line)]);
                    assert(seen_view(bs, cands) =~= seen_view(bs, prior) + seq![(t@, rule_range.start.line)]);
                    assert((a + seq![t@]).map_values(g) =~= a.map_values(g) + seq![g(t@)]);
                    assert(ts.subrange(0, k + 1).filter(f) =~= a + seq![t@]);
                    assert(start_cands + (a + seq![t@]).map_values(g) =~= start_cands + a.map_values(g) + seq![(t@, rule.range)]);
                }
            } else {
                assert(!f(t@));
                assert(ts.subrange(0, k + 1).filter(f) =~= a);
            }
            k += 1;
        }
        assert(ts.subrange(0, k as int) =~= ts);
        assert(all_candidates(rules.subrange(0, i + 1)) =~= start_cands + rule_candidates(rule@));
        i += 1;
    }
    assert(rules.subrange(0, i as int) =~= rules);
    out
}


/// The targets of all rules, in order.
pub open spec fn all_targets(rules: Seq<RuleView>) -> Seq<Seq<char>>
    decreases rules.len(),
{
    if rules.len() == 0 {
        seq![]
    } else {
        all_targets(rules.drop_last()) + rules.last().targets
    }
}

/// The prerequisites of a `.PHONY` rule that no rule defines.
pub open spec fn rule_phony_diags(bs: Seq<u8>, r: RuleView, defined: Seq<Seq<char>>) -> Seq<DiagnosticView> {
    if r.targets.contains(".PHONY"@) {
        r.prerequisites.filter(|p: Seq<char>| !defined.contains(p)).map_values(
            |p: Seq<char>| diag(
                lsp_range(bs, r.range),
                DiagnosticSeverity::Warning,
                "undefined-phony-target"@,
                "target '"@ + p + "' is declared .PHONY but is never defined"@,
            ),
        )
    } else {
        seq![]
    }
}

pub open spec fn missing_phony_diags(bs: Seq<u8>, rules: Seq<RuleView>, defined: Seq<Seq<char>>) -> Seq<DiagnosticView>
    decreases rules.len(),
{
    if rules.len() == 0 {
        seq![]
    } else {
        missing_phony_diags(bs, rules.drop_last(), defined) + rule_phony_diags(bs, rules.last(), defined)
    }
}

/// The targets of all rules.
pub fn defined_targets(makefile: &Makefile) -> (r: Vec<String>)
    ensures
        strings_view(r@) == all_targets(rules_view(makefile.rules@)),
{
    let ghost rules = rules_view(makefile.rules@);
    let mut out: Vec<String> = Vec::new();
    let mut i: usize = 0;
    while i < makefile.rules.len()
        invariant
            i <= makefile.rules@.len(),
            rules == rules_view(makefile.rules@),
            strings_view(out@) == all_targets(rules.subrange(0, i as int)),
        decreases makefile.rules@.len() - i,
    {
        let rule = &makefile.rules[i];
        assert(rules.subrange(0, i + 1).drop_last() =~= rules.subrange(0, i as int));
        assert(rules.subrange(0, i + 1).last() == rule@);
        let ghost before = strings_view(out@);
        let ghost ts = strings_view(rule.targets@);
        let mut k: usize = 0;
        while k < rule.targets.len()
            invariant
                k <= rule.targets@.len(),
                ts == strings_view(rule.targets@),
                strings_view(out@) == before + ts.subrange(0, k as int),
            decreases rule.targets@.len() - k,
        {
            let ghost prev = strings_view(out@);
            out.push(rule.targets[k].clone());
            assert(strings_view(out@) =~= prev + seq![ts[k as int]]);
            assert(ts.subrange(0, k + 1) =~= ts.subrange(0, k as int) + seq![ts[k as int]]);
            k += 1;
        }
        assert(ts.subrange(0, k as int) =~= ts);
        i += 1;
    }
    assert(rules.subrange(0, i as int) =~= rules);
    out
}

/// Check for `.PHONY` prerequisites that are never defined as targets.
fn check_missing_phony_targets(text: &str, makefile: &Makefile) -> (r: Vec<Diagnostic>)
    requires
        text.spec_bytes().len() <= u32::MAX,
    ensures
        diagnostics_view(r@) == missing_phony_diags(
            text.spec_bytes(),
            rules_view(makefile.rules@),
            all_targets(rules_view(makefile.rules@)),
        ),
{
    let ghost rules = rules_view(makefile.rules@);
    let defined = defined_targets(makefile);
    let ghost dv = strings_view(defined@);
    let mut out: Vec<Diagnostic> = Vec::new();
    let mut i: usize = 0;
    while i < makefile.rules.len()
        invariant
            i <= makefile.rules@.len(),
            text.spec_bytes().len() <= u32::MAX,
            rules == rules_view(makefile.rules@),
            dv == strings_view(defined@),
            dv == all_targets(rules),
            diagnostics_view(out@) == missing_phony_diags(text.spec_bytes(), rules.subrange(0, i as int), dv),
        decreases makefile.rules@.len() - i,
    {
        let rule = &makefile.rules[i];
        assert(rules.subrange(0, i + 1).drop_last() =~= rules.subrange(0, i as int));
        assert(rules.subrange(0, i + 1).last() == rule@);
        let ghost before = diagnostics_view(out@);
        if contains_string(&rule.targets, ".PHONY") {
            let ghost ps = strings_view(rule.prerequisites@);
            let ghost f = |p: Seq<char>| !dv.contains(p);
            let ghost g = |p: Seq<char>| diag(
                lsp_range(text.spec_bytes(), rule.range),
                DiagnosticSeverity::Warning,
                "undefined-phony-target"@,
                "target '"@ + p + "' is declared .PHONY but is never defined"@,
            );
            let mut k: usize = 0;
            while k < rule.prerequisites.len()
                invariant
                    k <= rule.prerequisites@.len(),
                    text.spec_bytes().len() <= u32::MAX,
                    dv == strings_view(defined@),
                    ps == strings_view(rule.prerequisites@),
                    f == (|p: Seq<char>| !dv.contains(p)),
                    g == (|p: Seq<char>| diag(
                        lsp_range(text.spec_bytes(), rule.range),
                        DiagnosticSeverity::Warning,
                        "undefined-phony-target"@,
                        "target '"@ + p + "' is declared .PHONY but is never defined"@,
                    )),
                    diagnostics_view(out@) == before + ps.subrange(0, k as int).filter(f).map_values(g),
                decreases rule.prerequisites@.len() - k,
            {
                let p = &rule.prerequisites[k];
                let ghost prev = diagnostics_view(out@);
                let ghost a = ps.subrange(0, k as int).filter(f);
                assert(ps.subrange(0, k + 1).drop_last() =~= ps.subrange(0, k as int));
                assert(ps[k as int] == p@);
                if !contains_string(&defined, p.as_str()) {
                    let range = text_range_to_lsp_range(text, rule.range);
                    let d = make_diagnostic(
                        range,
                        DiagnosticSeverity::Warning,
                        "undefined-phony-target",
                        concat3("target '", p.as_str(), "' is declared .PHONY but is never defined"),
                    );
                    assert(d@ == g(p@));
                    out.push(d);
                    assert(diagnostics_view(out@) =~= prev + seq![d@]);
                    assert((a + seq![p@]).map_values(g) =~= a.map_values(g) + seq![g(p@)]);
                } else {
                    assert(a + seq![] =~= a);
                }
                reveal(Seq::filter);
                assert(ps.subrange(0, k + 1).filter(f) =~= a + if f(p@) {
                    seq![p@]
                } else {
                    seq![]
                });
                k += 1;
            }
            assert(ps.subrange(0, k as int) =~= ps);
        }
        assert(diagnostics_view(out@) =~= missing_phony_diags(text.spec_bytes(), rules.subrange(0, i + 1), dv));
        i += 1;
    }
    assert(rules.subrange(0, i as int) =~= rules);
    out
}

// ---------------------------------------------------------------------------
// Includes, recipes and values

/// An `include` directive without a path.
pub open spec fn include_diags(bs: Seq<u8>, items: Seq<ItemView>) -> Seq<DiagnosticView>
    decreases items.len(),
{
    if items.len() == 0 {
        seq![]
    } else {
        include_diags(bs, items.drop_last()) + match items.last() {
            ItemView::Include { path, range, .. } => if (match path {
                Some(p) => p.len() == 0,
                None => true,
            }) {
                seq![diag(
                    lsp_range(bs, range),
                    DiagnosticSeverity::Error,
                    "include-missing-path"@,
                    "include directive has no file path"@,
                )]
            } else {
                seq![]
            },
            ItemView::Other => seq![],
        }
    }
}

/// Check for `include` directives with missing paths.
fn check_include_missing_path(text: &str, makefile: &Makefile) -> (r: Vec<Diagnostic>)
    requires
        text.spec_bytes().len() <= u32::MAX,
    ensures
        diagnostics_view(r@) == include_diags(text.spec_bytes(), items_view(makefile.items@)),
{
    let ghost items = items_view(makefile.items@);
    let mut out: Vec<Diagnostic> = Vec::new();
    let mut i: usize = 0;
    while i < makefile.items.len()
        invariant
            i <= makefile.items@.len(),
            text.spec_bytes().len() <= u32::MAX,
            items == items_view(makefile.items@),
            diagnostics_view(out@) == include_diags(text.spec_bytes(), items.subrange(0, i as int)),
        decreases makefile.items@.len() - i,
    {
        let item = &makefile.items[i];
        assert(items.subrange(0, i + 1).drop_last() =~= items.subrange(0, i as int));
        assert(items.subrange(0, i + 1).last() == item@);
        let ghost before = diagnostics_view(out@);
        match item {
            crate::makefile::Item::Include { path, range, .. } => {
                let missing = match path {
                    Some(p) => p.as_str().is_empty(),
                    None => true,
                };
                if missing {
                    let lr = text_range_to_lsp_range(text, *range);
                    let d = make_diagnostic(
                        lr,
                        DiagnosticSeverity::Error,
                        "include-missing-path",
                        "include directive has no file path".to_owned(),
                    );
                    out.push(d);
                    assert(diagnostics_view(out@) =~= before + seq![d@]);
                }
            },
            crate::makefile::Item::Other => {},
        }
        assert(diagnostics_view(out@) =~= include_diags(text.spec_bytes(), items.subrange(0, i + 1)));
        i += 1;
    }
    assert(items.subrange(0, i as int) =~= items);
    out
}

/// The first `INDENT` token among `children`, from index `k` on.
pub open spec fn first_indent(children: Seq<ElementView>, k: int) -> Option<ElementView>
    decreases children.len() - k,
{
    if k < 0 || k >= children.len() {
        None
    } else if children[k].is_token && children[k].kind == KIND_INDENT {
        Some(children[k])
    } else {
        first_indent(children, k + 1)
    }
}

/// Recipe lines whose indentation does not start with a tab.
pub open spec fn recipe_indent_diags(bs: Seq<u8>, lines: Seq<RecipeLineView>) -> Seq<DiagnosticView>
    decreases lines.len(),
{
    if lines.len() == 0 {
        seq![]
    } else {
        recipe_indent_diags(bs, lines.drop_last()) + match first_indent(lines.last().children, 0) {
            Some(tok) => if tok.text.len() > 0 && tok.text[0] == '\t' {
                seq![]
            } else {
                seq![diag(
                    lsp_range(bs, tok.range),
                    DiagnosticSeverity::Error,
                    "spaces-instead-of-tab"@,
                    "recipe lines must start with a tab, not spaces"@,
                )]
            },
            None => seq![],
        }
    }
}

pub open spec fn spaces_diags(bs: Seq<u8>, rule_lines: Seq<Seq<RecipeLineView>>) -> Seq<DiagnosticView>
    decreases rule_lines.len(),
{
    if rule_lines.len() == 0 {
        seq![]
    } else {
        spaces_diags(bs, rule_lines.drop_last()) + recipe_indent_diags(bs, rule_lines.last())
    }
}

fn first_indent_exec(children: &Vec<crate::makefile::Element>) -> (r: Option<usize>)
    ensures
        match r {
            Some(k) => k < children@.len() && first_indent(crate::makefile::elements_view(children@), 0) == Some(
                children@[k as int]@,
            ),
            None => first_indent(crate::makefile::elements_view(children@), 0) is None,
        },
{
    let ghost cv = crate::makefile::elements_view(children@);
    let mut k: usize = 0;
    while k < children.len()
        invariant
            k <= children@.len(),
            cv == crate::makefile::elements_view(children@),
            first_indent(cv, 0) == first_indent(cv, k as int),
        decreases children@.len() - k,
    {
        assert(cv[k as int] == children@[k as int]@);
        if children[k].is_token && children[k].kind == KIND_INDENT {
            return Some(k);
        }
        k += 1;
    }
    None
}

/// Check for recipe lines that use spaces instead of a tab for indentation.
fn check_spaces_in_recipes(text: &str, makefile: &Makefile) -> (r: Vec<Diagnostic>)
    requires
        text.spec_bytes().len() <= u32::MAX,
    ensures
        diagnostics_view(r@) == spaces_diags(text.spec_bytes(), recipe_lines_view(makefile.recipe_lines@)),
{
    let ghost all = recipe_lines_view(makefile.recipe_lines@);
    let mut out: Vec<Diagnostic> = Vec::new();
    let mut i: usize = 0;
    while i < makefile.recipe_lines.len()
        invariant
            i <= makefile.recipe_lines@.len(),
            text.spec_bytes().len() <= u32::MAX,
            all == recipe_lines_view(makefile.recipe_lines@),
            diagnostics_view(out@) == spaces_diags(text.spec_bytes(), all.subrange(0, i as int)),
        decreases makefile.recipe_lines@.len() - i,
    {
        let lines = &makefile.recipe_lines[i];
        let ghost lv = lines@.map_values(|l: crate::makefile::RecipeLine| l@);
        assert(all.subrange(0, i + 1).drop_last() =~= all.subrange(0, i as int));
        assert(all.subrange(0, i + 1).last() == lv);
        let ghost before = diagnostics_view(out@);
        let mut k: usize = 0;
        while k < lines.len()
            invariant
                k <= lines@.len(),
                text.spec_bytes().len() <= u32::MAX,
                lv == lines@.map_values(|l: crate::makefile::RecipeLine| l@),
                diagnostics_view(out@) == before + recipe_indent_diags(text.spec_bytes(), lv.subrange(0, k as int)),
            decreases lines@.len() - k,
        {
            let line = &lines[k];
            let ghost prev = diagnostics_view(out@);
            assert(lv.subrange(0, k + 1).drop_last() =~= lv.subrange(0, k as int));
            assert(lv.subrange(0, k + 1).last() == line@);
            if let Some(j) = first_indent_exec(&line.children) {
                let tok = &line.children[j];
                let bad = !crate::strs::starts_with_tab(tok.text.as_str());
                if bad {
                    let lr = text_range_to_lsp_range(text, tok.range);
                    let d = make_diagnostic(
                        lr,
                        DiagnosticSeverity::Error,
                        "spaces-instead-of-tab",
                        "recipe lines must start with a tab, not spaces".to_owned(),
                    );
                    out.push(d);
                    assert(diagnostics_view(out@) =~= prev + seq![d@]);
                }
            }
            assert(diagnostics_view(out@) =~= before + recipe_indent_diags(text.spec_bytes(), lv.subrange(0, k + 1)));
            k += 1;
        }
        assert(lv.subrange(0, k as int) =~= lv);
        i += 1;
    }
    assert(all.subrange(0, i as int) =~= all);
    out
}

/// The first child node of kind `EXPR`, from index `k` on.
pub open spec fn first_expr(nodes: Seq<NodeView>, k: int) -> Option<NodeView>
    decreases nodes.len() - k,
{
    if k < 0 || k >= nodes.len() {
        None
    } else if nodes[k].kind == KIND_EXPR {
        Some(nodes[k])
    } else {
        first_expr(nodes, k + 1)
    }
}

/// The last child that is not a comment.
pub open spec fn last_non_comment(children: Seq<ElementView>) -> Option<ElementView> {
    let f = children.filter(|c: ElementView| c.kind != KIND_COMMENT);
    if f.len() > 0 {
        Some(f.last())
    } else {
        None
    }
}

/// Definitions whose value ends in a whitespace token.
pub open spec fn trailing_whitespace_diags(bs: Seq<u8>, var_children: Seq<Seq<NodeView>>) -> Seq<DiagnosticView>
    decreases var_children.len(),
{
    if var_children.len() == 0 {
        seq![]
    } else {
        trailing_whitespace_diags(bs, var_children.drop_last()) + match first_expr(var_children.last(), 0) {
            Some(e) => match last_non_comment(e.children) {
                Some(c) => if c.is_token && c.kind == KIND_WHITESPACE {
                    seq![diag(
                        lsp_range(bs, c.range),
                        DiagnosticSeverity::Warning,
                        "trailing-whitespace-in-value"@,
                        "trailing whitespace is included in the variable value"@,
                    )]
                } else {
                    seq![]
                },
                None => seq![],
            },
            None => seq![],
        }
    }
}

fn first_expr_exec(nodes: &Vec<crate::makefile::Node>) -> (r: Option<usize>)
    ensures
        match r {
            Some(k) => k < nodes@.len() && first_expr(nodes@.map_values(|n: crate::makefile::Node| n@), 0)
                == Some(nodes@[k as int]@),
            None => first_expr(nodes@.map_values(|n: crate::makefile::Node| n@), 0) is None,
        },
{
    let ghost nv = nodes@.map_values(|n: crate::makefile::Node| n@);
    let mut k: usize = 0;
    while k < nodes.len()
        invariant
            k <= nodes@.len(),
            nv == nodes@.map_values(|n: crate::makefile::Node| n@),
            first_expr(nv, 0) == first_expr(nv, k as int),
        decreases nodes@.len() - k,
    {
        assert(nv[k as int] == nodes@[k as int]@);
        if nodes[k].kind == KIND_EXPR {
            return Some(k);
        }
        k += 1;
    }
    None
}

fn last_non_comment_exec(children: &Vec<crate::makefile::Element>) -> (r: Option<usize>)
    ensures
        match r {
            Some(k) => k < children@.len() && last_non_comment(crate::makefile::elements_view(children@)) == Some(
                children@[k as int]@,
            ),
            None => last_non_comment(crate::makefile::elements_view(children@)) is None,
        },
{
    let ghost cv = crate::makefile::elements_view(children@);
    let ghost f = |c: ElementView| c.kind != KIND_COMMENT;
    let mut found: Option<usize> = None;
    let mut k: usize = 0;
    while k < children.len()
        invariant
            k <= children@.len(),
            cv == crate::makefile::elements_view(children@),
            f == (|c: ElementView| c.kind != KIND_COMMENT),
            match found {
                Some(j) => j < k && cv.subrange(0, k as int).filter(f).len() > 0 && cv.subrange(0, k as int).filter(f).last() == cv[j as int],
                None => cv.subrange(0, k as int).filter(f).len() == 0,
            },
        decreases children@.len() - k,
    {
        reveal(Seq::filter);
        assert(cv.subrange(0, k + 1).drop_last() =~= cv.subrange(0, k as int));
        assert(cv[k as int] == children@[k as int]@);
        if children[k].kind != KIND_COMMENT {
            found = Some(k);
        }
        k += 1;
    }
    assert(cv.subrange(0, k as int) =~= cv);
    match found {
        Some(j) => {
            assert(cv[j as int] == children@[j as int]@);
            Some(j)
        },
        None => None,
    }
}

/// Check for trailing whitespace in variable assignment values: it is part
/// of the value, which is almost never intended.
fn check_trailing_whitespace_in_value(text: &str, makefile: &Makefile) -> (r: Vec<Diagnostic>)
    requires
        text.spec_bytes().len() <= u32::MAX,
    ensures
        diagnostics_view(r@) == trailing_whitespace_diags(text.spec_bytes(), nodes_view(makefile.variable_children@)),
{
    let ghost all = nodes_view(makefile.variable_children@);
    let mut out: Vec<Diagnostic> = Vec::new();
    let mut i: usize = 0;
    while i < makefile.variable_children.len()
        invariant
            i <= makefile.variable_children@.len(),
            text.spec_bytes().len() <= u32::MAX,
            all == nodes_view(makefile.variable_children@),
            diagnostics_view(out@) == trailing_whitespace_diags(text.spec_bytes(), all.subrange(0, i as int)),
        decreases makefile.variable_children@.len() - i,
    {
        let nodes = &makefile.variable_children[i];
        assert(all.subrange(0, i + 1).drop_last() =~= all.subrange(0, i as int));
        assert(all.subrange(0, i + 1).last() == nodes@.map_values(|n: crate::makefile::Node| n@));
        let ghost before = diagnostics_view(out@);
        if let Some(e) = first_expr_exec(nodes) {
            let expr = &nodes[e];
            if let Some(c) = last_non_comment_exec(&expr.children) {
                let child = &expr.children[c];
                if child.is_token && child.kind == KIND_WHITESPACE {
                    let lr = text_range_to_lsp_range(text, child.range);
                    let d = make_diagnostic(
                        lr,
                        DiagnosticSeverity::Warning,
                        "trailing-whitespace-in-value",
                        "trailing whitespace is included in the variable value".to_owned(),
                    );
                    out.push(d);
                    assert(diagnostics_view(out@) =~= before + seq![d@]);
                }
            }
        }
        assert(diagnostics_view(out@) =~= trailing_whitespace_diags(text.spec_bytes(), all.subrange(0, i + 1)));
        i += 1;
    }
    assert(all.subrange(0, i as int) =~= all);
    out
}

// ---------------------------------------------------------------------------
// Circular dependencies

/// The message of the cycle `c`: its targets, and the first again, joined
/// with arrows.
pub open spec fn cycle_message(c: Seq<Seq<char>>) -> Seq<char> {
    "circular dependency: "@ + join(c.push(c[0]), " -> "@)
}

/// One warning per cycle, on the first rule that defines the cycle's first
/// target.
pub open spec fn cycle_diags(bs: Seq<u8>, rules: Seq<RuleView>, cycles: Seq<Seq<Seq<char>>>) -> Seq<DiagnosticView>
    decreases cycles.len(),
{
    if cycles.len() == 0 {
        seq![]
    } else {
        let c = cycles.last();
        cycle_diags(bs, rules, cycles.drop_last()) + match first_rule_with_target(rules, c[0], 0) {
            Some(r) => seq![diag(lsp_range(bs, r.range), DiagnosticSeverity::Warning, "circular-dependency"@, cycle_message(c))],
            None => seq![],
        }
    }
}

/// The circular dependencies of the rules, in the order of `cycle_names`.
pub open spec fn circular_dependency_diags(bs: Seq<u8>, rules: Seq<RuleView>) -> Seq<DiagnosticView> {
    cycle_diags(bs, rules, cycle_names(rules_graph(rules)))
}

/// Check for circular dependencies between targets: a warning on the rule
/// of the first target of each cycle of the dependency graph.
fn check_circular_dependencies(text: &str, makefile: &Makefile) -> (r: Vec<Diagnostic>)
    requires
        text.spec_bytes().len() <= u32::MAX,
    ensures
        diagnostics_view(r@) == circular_dependency_diags(text.spec_bytes(), rules_view(makefile.rules@)),
{
    let graph = DependencyGraph::from_makefile(makefile);
    proof {
        lemma_graph_of_is_rules_graph(graph@, makefile);
    }
    let cycles = graph.find_cycles();
    let ghost cs = cycles_view(cycles@);
    let ghost rules = makefile@.rules;
    let ghost bs = text.spec_bytes();
    proof {
        assert forall|k: int| 0 <= k < cs.len() implies #[trigger] cs[k].len() >= 2 by {
            assert(cs.contains(cs[k]));
        }
    }
    let mut out: Vec<Diagnostic> = Vec::new();
    let mut i: usize = 0;
    while i < cycles.len()
        invariant
            i <= cycles@.len(),
            cs == cycles_view(cycles@),
            bs == text.spec_bytes(),
            bs.len() <= u32::MAX,
            rules == makefile@.rules,
            forall|k: int| 0 <= k < cs.len() ==> #[trigger] cs[k].len() >= 2,
            diagnostics_view(out@) == cycle_diags(bs, rules, cs.subrange(0, i as int)),
        decreases cycles@.len() - i,
    {
        let c = &cycles[i];
        assert(cs[i as int] == strings_view(c@));
        assert(cs.subrange(0, i + 1).drop_last() =~= cs.subrange(0, i as int));
        let ghost before = diagnostics_view(out@);
        if let Some(k) = first_rule_index(makefile, c[0].as_str()) {
            let mut parts: Vec<String> = Vec::new();
            let mut j: usize = 0;
            while j < c.len()
                invariant
                    j <= c@.len(),
                    strings_view(parts@) == strings_view(c@).subrange(0, j as int),
                decreases c@.len() - j,
            {
                let ghost pb = parts@;
                let cj = c[j].clone();
                assert(cj@ == c@[j as int]@);
                parts.push(cj);
                assert(strings_view(parts@) =~= strings_view(pb).push(cj@));
                assert(strings_view(parts@) =~= strings_view(c@).subrange(0, j + 1));
                j += 1;
            }
            assert(strings_view(c@).subrange(0, j as int) =~= strings_view(c@));
            let ghost pb = parts@;
            let c0 = c[0].clone();
            assert(c0@ == c@[0]@);
            parts.push(c0);
            assert(strings_view(parts@) =~= strings_view(pb).push(c0@));
            assert(strings_view(parts@) =~= strings_view(c@).push(strings_view(c@)[0]));
            let joined = join_strings(&parts, " -> ");
            let mut message = "circular dependency: ".to_owned();
            push_str(&mut message, joined.as_str());
            let range = text_range_to_lsp_range(text, makefile.rules[k].range);
            let d = make_diagnostic(range, DiagnosticSeverity::Warning, "circular-dependency", message);
            out.push(d);
            assert(diagnostics_view(out@) =~= before + seq![d@]);
        }
        assert(diagnostics_view(out@) =~= cycle_diags(bs, rules, cs.subrange(0, i + 1)));
        i += 1;
    }
    assert(cs.subrange(0, i as int) =~= cs);
    out
}

// ---------------------------------------------------------------------------
// All diagnostics

/// The diagnostics of a parse: its errors, then the lint checks in order.
pub open spec fn spec_diagnostics(bs: Seq<u8>, m: MakefileView, errors: Seq<ParseErrorView>) -> Seq<DiagnosticView> {
    errors.map_values(|e: ParseErrorView| parse_error_diag(bs, e))
        + undefined_reference_diags(bs, m.references, defined_names(m.variables))
        + self_reference_diags(bs, m.variables, m.definition_references)
        + empty_reference_diags(bs, m.references)
        + self_dependency_diags(bs, m.rules)
        + circular_dependency_diags(bs, m.rules)
        + duplicate_diags(bs, all_candidates(m.rules))
        + missing_phony_diags(bs, m.rules, all_targets(m.rules))
        + include_diags(bs, m.items)
        + spaces_diags(bs, m.recipe_lines)
        + trailing_whitespace_diags(bs, m.variable_children)
}

/// Collect diagnostics from parse errors and semantic analysis.
pub fn get_diagnostics(source_text: &str, parsed: &Parse) -> (r: Vec<Diagnostic>)
    requires
        source_text.spec_bytes().len() <= u32::MAX,
    ensures
        diagnostics_view(r@) == spec_diagnostics(source_text.spec_bytes(), parsed.makefile@, errors_view(parsed.errors@)),
{
    let makefile = &parsed.makefile;
    let mut diagnostics = parse_error_diagnostics(source_text, parsed);
    let ghost d0 = diagnostics_view(diagnostics@);
    let mut next = check_undefined_variables(source_text, makefile);
    append_diagnostics(&mut diagnostics, &mut next);
    let mut next = check_recursive_variable_self_reference(source_text, makefile);
    append_diagnostics(&mut diagnostics, &mut next);
    let mut next = check_empty_variable_references(source_text, makefile);
    append_diagnostics(&mut diagnostics, &mut next);
    let mut next = check_self_dependency(source_text, makefile);
    append_diagnostics(&mut diagnostics, &mut next);
    let mut next = check_circular_dependencies(source_text, makefile);
    append_diagnostics(&mut diagnostics, &mut next);
    let mut next = check_duplicate_targets(source_text, makefile);
    append_diagnostics(&mut diagnostics, &mut next);
    let mut next = check_missing_phony_targets(source_text, makefile);
    append_diagnostics(&mut diagnostics, &mut next);
    let mut next = check_include_missing_path(source_text, makefile);
    append_diagnostics(&mut diagnostics, &mut next);
    let mut next = check_spaces_in_recipes(source_text, makefile);
    append_diagnostics(&mut diagnostics, &mut next);
    let mut next = check_trailing_whitespace_in_value(source_text, makefile);
    append_diagnostics(&mut diagnostics, &mut next);
    diagnostics
}

fn append_diagnostics(out: &mut Vec<Diagnostic>, more: &mut Vec<Diagnostic>)
    ensures
        diagnostics_view(final(out)@) == diagnostics_view(old(out)@) + diagnostics_view(old(more)@),
{
    let ghost a = old(out)@;
    let ghost b = old(more)@;
    out.append(more);
    assert(diagnostics_view(out@) =~= diagnostics_view(a) + diagnostics_view(b));
}

/// The directory and file parts of the automatic variables of GNU Make.
pub open spec fn gnu_automatic_variable_parts() -> Seq<Seq<char>> {
    seq!["@D"@, "@F"@, "<D"@, "<F"@, "^D"@, "^F"@, "+D"@, "+F"@, "?D"@, "?F"@, "*D"@, "*F"@]
}

/// GNU Make knows the directory and file parts of its automatic variables.
pub proof fn lemma_automatic_variable_parts_known()
    ensures
        forall|n: Seq<char>| #[trigger] gnu_automatic_variable_parts().contains(n) ==> spec_is_known_variable(n),
{
    let parts = gnu_automatic_variable_parts();
    let names = crate::builtins::spec_automatic_variable_variants();
    assert(parts =~= names);
    assert forall|n: Seq<char>| #[trigger] parts.contains(n) implies spec_is_known_variable(n) by {
        assert(names.contains(n));
    }
}

/// Each undefined-variable diagnostic stands for a reference whose name is
/// neither defined in the file nor known to Make (so never one of the
/// directory and file parts of an automatic variable), on the reference's
/// range, saying that the name is not defined.
pub proof fn lemma_undefined_reference_diags_unknown_names(bs: Seq<u8>, refs: Seq<VariableReferenceView>, defined: Seq<Seq<char>>)
    ensures
        forall|i: int|
            #![trigger undefined_reference_diags(bs, refs, defined)[i]]
            0 <= i < undefined_reference_diags(bs, refs, defined).len() ==> exists|j: int|
                {
                    &&& 0 <= j < refs.len()
                    &&& (#[trigger] refs[j]).name is Some
                    &&& !spec_is_known_variable(refs[j].name.unwrap())
                    &&& !gnu_automatic_variable_parts().contains(refs[j].name.unwrap())
                    &&& !defined.contains(refs[j].name.unwrap())
                    &&& undefined_reference_diags(bs, refs, defined)[i] == diag(
                        lsp_range(bs, refs[j].range),
                        DiagnosticSeverity::Warning,
                        "undefined-variable"@,
                        "variable '"@ + refs[j].name.unwrap() + "' is not defined"@,
                    )
                },
    decreases refs.len(),
{
    lemma_automatic_variable_parts_known();
    if refs.len() > 0 {
        let p = refs.drop_last();
        lemma_undefined_reference_diags_unknown_names(bs, p, defined);
        let a = undefined_reference_diags(bs, p, defined);
        let d = undefined_reference_diags(bs, refs, defined);
        assert forall|i: int| #![trigger d[i]] 0 <= i < d.len() implies exists|j: int|
            {
                &&& 0 <= j < refs.len()
                &&& (#[trigger] refs[j]).name is Some
                &&& !spec_is_known_variable(refs[j].name.unwrap())
                &&& !gnu_automatic_variable_parts().contains(refs[j].name.unwrap())
                &&& !defined.contains(refs[j].name.unwrap())
                &&& d[i] == diag(
                    lsp_range(bs, refs[j].range),
                    DiagnosticSeverity::Warning,
                    "undefined-variable"@,
                    "variable '"@ + refs[j].name.unwrap() + "' is not defined"@,
                )
            } by {
            if i < a.len() {
                assert(d[i] == a[i]);
                let j = choose|j: int|
                    {
                        &&& 0 <= j < p.len()
                        &&& (#[trigger] p[j]).name is Some
                        &&& !spec_is_known_variable(p[j].name.unwrap())
                        &&& !gnu_automatic_variable_parts().contains(p[j].name.unwrap())
                        &&& !defined.contains(p[j].name.unwrap())
                        &&& a[i] == diag(
                            lsp_range(bs, p[j].range),
                            DiagnosticSeverity::Warning,
                            "undefined-variable"@,
                            "variable '"@ + p[j].name.unwrap() + "' is not defined"@,
                        )
                    };
                assert(refs[j] == p[j]);
            } else {
                let j = refs.len() - 1;
                assert(refs[j] == refs.last());
            }
        }
    }
}

} // verus!
