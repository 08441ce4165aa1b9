//! Inlay hints for Makefiles.
//!
//! Two kinds of hints today:
//! * Simply-expanded variable references show their resolved value.
//! * Top-level targets (graph entry points) show `depth N` when the longest
//!   path through their prerequisites is non-trivial.

use vstd::prelude::*;
use vstd::string::StringSliceAdditionalSpecFns;
use vstd::utf8::*;

use crate::completion::{trim, trimmed};
use crate::dep_graph::{depth_of, graph_of, is_graph_target, spec_is_graph_target, DependencyGraph, GraphView};
use crate::diagnostics::{decimal, decimal_string};
use crate::hover::{first_variable_index, first_variable_named};
use crate::makefile::{references_view, Makefile, MakefileView, Span, VariableReferenceView, KIND_TARGETS};
use crate::position::{lsp_range, text_range_to_lsp_range, Position, Range};
use crate::strs::{push_str, str_eq, substr, utf8};

verus! {

broadcast use {vstd::utf8::encode_utf8_decode_utf8, vstd::utf8::encode_utf8_valid_utf8};

/// Depth threshold below which we don't emit a depth hint, to avoid spamming
/// every leaf rule. `depth 0` and `depth 1` rules are usually obvious.
pub const DEPTH_HINT_THRESHOLD: usize = 2;

/// The kind of an inlay hint.
#[derive(Debug, Clone, Copy, PartialEq, Eq, Structural)]
pub enum InlayHintKind {
    Type,
    Parameter,
}

/// A label shown inline at a position.
pub struct InlayHint {
    pub position: Position,
    pub label: String,
    pub kind: Option<InlayHintKind>,
    pub padding_left: Option<bool>,
    pub padding_right: Option<bool>,
}

pub struct InlayHintView {
    pub position: Position,
    pub label: Seq<char>,
    pub kind: Option<InlayHintKind>,
    pub padding_left: Option<bool>,
    pub padding_right: Option<bool>,
}

impl View for InlayHint {
    type V = InlayHintView;

    open spec fn view(&self) -> InlayHintView {
        InlayHintView {
            position: self.position,
            label: self.label@,
            kind: self.kind,
            padding_left: self.padding_left,
            padding_right: self.padding_right,
        }
    }
}

pub open spec fn hints_view(v: Seq<InlayHint>) -> Seq<InlayHintView> {
    v.map_values(|h: InlayHint| h@)
}

/// The first child span of kind `kind`.
pub open spec fn first_span_of_kind(spans: Seq<Span>, kind: u16) -> Option<Span>
    decreases spans.len(),
{
    if spans.len() == 0 {
        None
    } else if spans[0].kind == kind {
        Some(spans[0])
    } else {
        first_span_of_kind(spans.drop_first(), kind)
    }
}

/// The `depth N` hint of rule `i`: for a rule with a single graph target
/// that no other target refers to, whose depth reaches the threshold,
/// anchored at the end of the rule's targets when that lies on the lines of
/// `range`.
pub open spec fn depth_hint(bs: Seq<u8>, m: MakefileView, g: GraphView, i: int, range: Range) -> Option<InlayHintView> {
    let r = m.rules[i];
    if r.targets.len() != 1 {
        None
    } else {
        let t = r.targets[0];
        let d = depth_of(g, t);
        if !spec_is_graph_target(t) || (exists|a: Seq<char>| g.referrer_set(t).contains(a) && a != t) || d
            < DEPTH_HINT_THRESHOLD {
            None
        } else {
            match (if i < m.rule_children.len() {
                first_span_of_kind(m.rule_children[i], KIND_TARGETS)
            } else {
                None
            }) {
                None => None,
                Some(span) => {
                    let anchor = lsp_range(bs, span.range).end;
                    if anchor.line < range.start.line || anchor.line > range.end.line {
                        None
                    } else {
                        Some(
                            InlayHintView {
                                position: anchor,
                                label: "depth "@ + decimal(d),
                                kind: Some(InlayHintKind::Parameter),
                                padding_left: Some(true),
                                padding_right: Some(true),
                            },
                        )
                    }
                },
            }
        }
    }
}

/// The depth hints of the rules before index `n`.
pub open spec fn depth_hints(bs: Seq<u8>, m: MakefileView, g: GraphView, n: int, range: Range) -> Seq<InlayHintView>
    decreases n,
{
    if n <= 0 {
        seq![]
    } else {
        depth_hints(bs, m, g, n - 1, range) + match depth_hint(bs, m, g, n - 1, range) {
            Some(h) => seq![h],
            None => seq![],
        }
    }
}

/// The trimmed value (as bytes) that a reference shows: the reference is
/// named and on the lines of `range`, and the first definition of its name
/// is simply expanded (`:=` or `::=`) with a value that is not blank.
pub open spec fn hint_value(bs: Seq<u8>, m: MakefileView, r: VariableReferenceView, range: Range) -> Option<Seq<u8>> {
    match r.name {
        None => None,
        Some(n) => {
            let rr = lsp_range(bs, r.range);
            if rr.end.line < range.start.line || rr.start.line > range.end.line {
                None
            } else {
                match first_variable_named(m.variables, n, 0) {
                    None => None,
                    Some(d) => {
                        let op = match d.operator {
                            Some(o) => o,
                            None => ""@,
                        };
                        let v = match d.raw_value {
                            Some(raw) => trimmed(utf8(raw)),
                            None => seq![],
                        };
                        if (op != ":="@ && op != "::="@) || v.len() == 0 {
                            None
                        } else {
                            Some(v)
                        }
                    },
                }
            }
        },
    }
}

/// A value longer than 40 bytes is shown as its first 37 bytes and `...`.
pub open spec fn shown_value(v: Seq<u8>) -> Seq<char> {
    if v.len() > 40 {
        decode_utf8(v.subrange(0, 37)) + "..."@
    } else {
        decode_utf8(v)
    }
}

/// The value hint of a reference, at the end of the reference.
pub open spec fn value_hint(bs: Seq<u8>, m: MakefileView, r: VariableReferenceView, range: Range) -> Option<InlayHintView> {
    match hint_value(bs, m, r, range) {
        None => None,
        Some(v) => Some(
            InlayHintView {
                position: lsp_range(bs, r.range).end,
                label: ": "@ + shown_value(v),
                kind: Some(InlayHintKind::Parameter),
                padding_left: Some(true),
                padding_right: None,
            },
        ),
    }
}

/// The value hints of the references before index `n`.
pub open spec fn value_hints(bs: Seq<u8>, m: MakefileView, n: int, range: Range) -> Seq<InlayHintView>
    decreases n,
{
    if n <= 0 {
        seq![]
    } else {
        value_hints(bs, m, n - 1, range) + match value_hint(bs, m, m.references[n - 1], range) {
            Some(h) => seq![h],
            None => seq![],
        }
    }
}

/// Every shown value that is cut is cut at a character boundary (cutting
/// elsewhere panics).
pub open spec fn values_cut_at_boundaries(bs: Seq<u8>, m: MakefileView, range: Range) -> bool {
    forall|k: int|
        0 <= k < m.references.len() ==> match #[trigger] hint_value(bs, m, m.references[k], range) {
            Some(v) => v.len() > 40 ==> is_char_boundary(v, 37),
            None => true,
        }
}

fn first_span_index(spans: &Vec<Span>, kind: u16) -> (r: Option<usize>)
    ensures
        match r {
            Some(k) => k < spans@.len() && first_span_of_kind(spans@, kind) == Some(spans@[k as int]),
            None => first_span_of_kind(spans@, kind) is None,
        },
{
    let mut k: usize = 0;
    assert(spans@.subrange(0, spans@.len() as int) =~= spans@);
    while k < spans.len()
        invariant
            k <= spans@.len(),
            first_span_of_kind(spans@, kind) == first_span_of_kind(spans@.subrange(k as int, spans@.len() as int), kind),
        decreases spans@.len() - k,
    {
        let ghost rest = spans@.subrange(k as int, spans@.len() as int);
        assert(rest.drop_first() =~= spans@.subrange(k + 1, spans@.len() as int));
        if spans[k].kind == kind {
            return Some(k);
        }
        k += 1;
    }
    None
}

/// Does some target other than `t` refer to `t`?
fn referred_by_other(graph: &DependencyGraph, t: &str) -> (r: bool)
    ensures
        r == exists|a: Seq<char>| graph@.referrer_set(t@).contains(a) && a != t@,
{
    let refs = graph.referrers(t);
    let mut i: usize = 0;
    while i < refs.len()
        invariant
            i <= refs@.len(),
            forall|b: Seq<char>| #[trigger] crate::strs::strings_view(refs@).contains(b) <==> graph@.referrer_set(t@).contains(b),
            forall|j: int| 0 <= j < i ==> refs@[j]@ == t@,
        decreases refs@.len() - i,
    {
        if !str_eq(refs[i].as_str(), t) {
            proof {
                assert(crate::strs::strings_view(refs@)[i as int] == refs@[i as int]@);
                assert(crate::strs::strings_view(refs@).contains(refs@[i as int]@));
                assert(graph@.referrer_set(t@).contains(refs@[i as int]@));
            }
            return true;
        }
        i += 1;
    }
    proof {
        assert forall|a: Seq<char>| graph@.referrer_set(t@).contains(a) implies a == t@ by {
            assert(crate::strs::strings_view(refs@).contains(a));
            let j = choose|j: int| 0 <= j < refs@.len() && crate::strs::strings_view(refs@)[j] == a;
            assert(crate::strs::strings_view(refs@)[j] == refs@[j]@);
        }
    }
    false
}

/// Emit a `depth N` hint at the end of each top-level target's rule header.
///
/// Top-level = no incoming edges in the dependency graph (nothing depends on
/// it). Depth = length of the longest path from this target down through its
/// prerequisites. Skip rules with multiple targets (the hint would be
/// ambiguous about which target it refers to) and depths below the threshold.
pub fn target_depth_hints(makefile: &Makefile, source_text: &str, range: Range) -> (r: Vec<InlayHint>)
    requires
        source_text.spec_bytes().len() <= u32::MAX,
    ensures
        exists|g: GraphView|
            graph_of(g, makefile) && hints_view(r@) == depth_hints(
                source_text.spec_bytes(),
                makefile@,
                g,
                makefile@.rules.len() as int,
                range,
            ),
{
    let ghost bs = source_text.spec_bytes();
    let ghost m = makefile@;
    let graph = DependencyGraph::from_makefile(makefile);
    let ghost g = graph@;
    let mut hints: Vec<InlayHint> = Vec::new();
    let mut i: usize = 0;
    while i < makefile.rules.len()
        invariant
            i <= makefile.rules@.len(),
            bs == source_text.spec_bytes(),
            bs.len() <= u32::MAX,
            m == makefile@,
            g == graph@,
            hints_view(hints@) == depth_hints(bs, m, g, i as int, range),
        decreases makefile.rules@.len() - i,
    {
        let ghost before = hints_view(hints@);
        let rule = &makefile.rules[i];
        assert(m.rules[i as int] == rule@);
        let hint = if rule.targets.len() != 1 {
            None
        } else {
            let target = rule.targets[0].as_str();
            assert(crate::strs::strings_view(rule.targets@)[0] == target@);
            if !is_graph_target(target) || referred_by_other(&graph, target) {
                None
            } else {
                let depth = graph.longest_path_length(target);
                if depth < DEPTH_HINT_THRESHOLD {
                    None
                } else {
                    let span = if i < makefile.rule_children.len() {
                        assert(m.rule_children[i as int] == makefile.rule_children@[i as int]@);
                        match first_span_index(&makefile.rule_children[i], KIND_TARGETS) {
                            Some(k) => Some(makefile.rule_children[i][k]),
                            None => None,
                        }
                    } else {
                        None
                    };
                    match span {
                        None => None,
                        Some(span) => {
                            let anchor = text_range_to_lsp_range(source_text, span.range).end;
                            if anchor.line < range.start.line || anchor.line > range.end.line {
                                None
                            } else {
                                let mut label = String::new();
                                push_str(&mut label, "depth ");
                                let digits = decimal_string(depth as u64);
                                push_str(&mut label, digits.as_str());
                                Some(
                                    InlayHint {
                                        position: anchor,
                                        label,
                                        kind: Some(InlayHintKind::Parameter),
                                        padding_left: Some(true),
                                        padding_right: Some(true),
                                    },
                                )
                            }
                        },
                    }
                }
            }
        };
        match hint {
            Some(h) => {
                hints.push(h);
                assert(hints_view(hints@) =~= before + seq![hints@.last()@]);
            },
            None => {
                assert(before + seq![] =~= before);
            },
        }
        assert(hints_view(hints@) =~= depth_hints(bs, m, g, i + 1, range));
        i += 1;
    }
    hints
}

/// The value that reference `k` shows, if any, with the end of its range.
fn hint_value_exec<'a>(makefile: &'a Makefile, source_text: &str, k: usize, range: Range) -> (r: Option<(&'a str, Position)>)
    requires
        source_text.spec_bytes().len() <= u32::MAX,
        k < makefile.references@.len(),
    ensures
        match r {
            Some((v, p)) => hint_value(source_text.spec_bytes(), makefile@, makefile@.references[k as int], range)
                == Some(v.spec_bytes()) && p == lsp_range(source_text.spec_bytes(), makefile@.references[k as int].range).end,
            None => hint_value(source_text.spec_bytes(), makefile@, makefile@.references[k as int], range) is None,
        },
{
    let ghost bs = source_text.spec_bytes();
    let ghost m = makefile@;
    let var_ref = &makefile.references[k];
    assert(m.references[k as int] == var_ref@);
    let name = match &var_ref.name {
        Some(n) => n,
        None => {
            return None;
        },
    };
    let ref_range = text_range_to_lsp_range(source_text, var_ref.range);
    if ref_range.end.line < range.start.line || ref_range.start.line > range.end.line {
        return None;
    }
    let d = first_variable_index(makefile, name.as_str())?;
    let var_def = &makefile.variables[d];
    assert(m.variables[d as int] == var_def@);
    let ghost dv = first_variable_named(m.variables, name@, 0).unwrap();
    assert(dv == var_def@);
    let simple = match &var_def.operator {
        Some(op) => {
            assert(dv.operator == Some(op@));
            str_eq(op.as_str(), ":=") || str_eq(op.as_str(), "::=")
        },
        None => {
            proof {
                reveal_strlit("");
                reveal_strlit(":=");
                reveal_strlit("::=");
                assert(""@.len() == 0);
                assert(":="@.len() == 2);
                assert("::="@.len() == 3);
            }
            false
        },
    };
    if !simple {
        assert(hint_value(bs, m, m.references[k as int], range) is None);
        return None;
    }
    let value: &str = match &var_def.raw_value {
        Some(raw) => trim(raw.as_str()),
        None => "",
    };
    proof {
        reveal_strlit("");
    }
    if value.as_bytes().len() == 0 {
        return None;
    }
    Some((value, ref_range.end))
}

/// The value hint of one reference.
fn value_hint_exec(makefile: &Makefile, source_text: &str, k: usize, range: Range) -> (r: Option<InlayHint>)
    requires
        source_text.spec_bytes().len() <= u32::MAX,
        k < makefile.references@.len(),
        values_cut_at_boundaries(source_text.spec_bytes(), makefile@, range),
    ensures
        match r {
            Some(h) => value_hint(source_text.spec_bytes(), makefile@, makefile@.references[k as int], range) == Some(h@),
            None => value_hint(source_text.spec_bytes(), makefile@, makefile@.references[k as int], range) is None,
        },
{
    let ghost bs = source_text.spec_bytes();
    let ghost m = makefile@;
    let (value, end) = hint_value_exec(makefile, source_text, k, range)?;
    let vb = value.as_bytes();
    let ghost v = vb@;
    assert(match hint_value(bs, m, m.references[k as int], range) {
        Some(v) => v.len() > 40 ==> is_char_boundary(v, 37),
        None => true,
    });
    let mut label = String::new();
    push_str(&mut label, ": ");
    if vb.len() > 40 {
        proof {
            is_char_boundary_start_end_of_seq(v);
        }
        let head = substr(value, 0, 37);
        push_str(&mut label, head);
        push_str(&mut label, "...");
        assert(head@ == decode_utf8(v.subrange(0, 37)));
    } else {
        push_str(&mut label, value);
    }
    assert(label@ =~= ": "@ + shown_value(v));
    Some(
        InlayHint {
            position: end,
            label,
            kind: Some(InlayHintKind::Parameter),
            padding_left: Some(true),
            padding_right: None,
        },
    )
}

/// Are all shown values that are cut cut at character boundaries? Where
/// one is not, `get_inlay_hints` panics.
pub fn values_cut_ok(makefile: &Makefile, source_text: &str, range: Range) -> (r: bool)
    requires
        source_text.spec_bytes().len() <= u32::MAX,
    ensures
        r == values_cut_at_boundaries(source_text.spec_bytes(), makefile@, range),
{
    let ghost bs = source_text.spec_bytes();
    let ghost m = makefile@;
    let mut k: usize = 0;
    while k < makefile.references.len()
        invariant
            k <= makefile.references@.len(),
            bs == source_text.spec_bytes(),
            bs.len() <= u32::MAX,
            m == makefile@,
            m.references.len() == makefile.references@.len(),
            forall|j: int|
                0 <= j < k ==> match #[trigger] hint_value(bs, m, m.references[j], range) {
                    Some(v) => v.len() > 40 ==> is_char_boundary(v, 37),
                    None => true,
                },
        decreases makefile.references@.len() - k,
    {
        if let Some((value, _)) = hint_value_exec(makefile, source_text, k, range) {
            let vb = value.as_bytes();
            if vb.len() > 40 {
                proof {
                    is_char_boundary_iff_not_is_continuation_byte(vb@, 37);
                }
                if 0x80 <= vb[37] && vb[37] <= 0xbf {
                    return false;
                }
            }
        }
        k += 1;
    }
    true
}

/// Generate inlay hints for a Makefile within the given range: the depth
/// hints, then the value hints.
pub fn get_inlay_hints(makefile: &Makefile, source_text: &str, range: Range) -> (r: Vec<InlayHint>)
    requires
        source_text.spec_bytes().len() <= u32::MAX,
        values_cut_at_boundaries(source_text.spec_bytes(), makefile@, range),
    ensures
        exists|g: GraphView|
            graph_of(g, makefile) && hints_view(r@) == depth_hints(
                source_text.spec_bytes(),
                makefile@,
                g,
                makefile@.rules.len() as int,
                range,
            ) + value_hints(source_text.spec_bytes(), makefile@, makefile@.references.len() as int, range),
{
    let ghost bs = source_text.spec_bytes();
    let ghost m = makefile@;
    let mut hints = target_depth_hints(makefile, source_text, range);
    let ghost g = choose|g: GraphView|
        graph_of(g, makefile) && hints_view(hints@) == depth_hints(bs, m, g, m.rules.len() as int, range);
    let ghost mid = hints_view(hints@);
    assert(mid + value_hints(bs, m, 0, range) =~= mid);
    let mut k: usize = 0;
    while k < makefile.references.len()
        invariant
            k <= makefile.references@.len(),
            bs == source_text.spec_bytes(),
            bs.len() <= u32::MAX,
            m == makefile@,
            m.references.len() == makefile.references@.len(),
            values_cut_at_boundaries(bs, m, range),
            hints_view(hints@) == mid + value_hints(bs, m, k as int, range),
        decreases makefile.references@.len() - k,
    {
        let ghost before = hints_view(hints@);
        match value_hint_exec(makefile, source_text, k, range) {
            Some(h) => {
                hints.push(h);
                assert(hints_view(hints@) =~= before + seq![hints@.last()@]);
            },
            None => {
                assert(before + seq![] =~= before);
            },
        }
        assert(hints_view(hints@) =~= mid + value_hints(bs, m, k + 1, range));
        k += 1;
    }
    hints
}

} // verus!
