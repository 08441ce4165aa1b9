//! Find references for Makefiles.
//!
//! The references of a name are the name ranges that renaming it would
//! edit: its definitions, its `$(NAME)`/`${NAME}` references and its words
//! among prerequisites. They are collected with the edits of a rename to the
//! empty text, of which only the ranges are kept.

use vstd::prelude::*;
use vstd::string::StringSliceAdditionalSpecFns;
use vstd::utf8::*;

use crate::goto::{spec_is_in_prerequisites, Location};
use crate::makefile::{
    lossless_is_in_prerequisites, lossless_variable_at_offset, lossless_variable_name_at, lossless_word_at_offset,
    Makefile, MakefileView, Rule, RuleView, VariableDefinitionView,
};
use crate::position::{spec_position_to_offset, try_position_to_offset, Position, Range};
use crate::rename::{
    edits_view, keyed_edits, prereq_word_edits, target_rename_edits, variable_rename_edits, on_target_definition, on_target_definition_exec, on_variable_definition,
    on_variable_definition_exec, push_reference_edits, push_repeated_prereq_edits, push_target_def_edits,
    push_variable_def_edits, reference_edits, reference_pattern, repeated_prereq_edits, sort_edits, sorted_edits,
    target_def_edits, text_at, variable_def_edits, word_at, EditView, TextEdit,
};
use crate::sorted::{entries_view, first_key_index, first_per_key_view, lemma_first_key_index_bounds, view_keys, OrderedKey};
use crate::strs::{lemma_first_byte_ascii, str_eq, strings_view, utf8};

verus! {

broadcast use vstd::utf8::encode_utf8_decode_utf8;

/// What the references are asked of at a byte offset.
pub enum ReferenceSubject {
    Variable(Seq<char>),
    Target(Seq<char>),
    Nothing,
}

/// The subject at byte `o`: the variable referenced around it; else the
/// word there, as a target when it is among prerequisites or names a
/// target at its rule's start, as a variable when it names a variable at
/// its definition.
pub open spec fn reference_subject(bs: Seq<u8>, text: Seq<char>, m: MakefileView, o: int) -> ReferenceSubject {
    match lossless_variable_name_at(text, o as usize) {
        Some(v) => ReferenceSubject::Variable(v),
        None => match word_at(bs, o) {
            Some((s, e)) => {
                let w = text_at(bs, s, e);
                if (is_char_boundary(bs, o) && spec_is_in_prerequisites(bs, o)) || on_target_definition(
                    m.rules,
                    o,
                    w,
                ) {
                    ReferenceSubject::Target(w)
                } else if on_variable_definition(m.variables, o, w) {
                    ReferenceSubject::Variable(w)
                } else {
                    ReferenceSubject::Nothing
                }
            },
            None => ReferenceSubject::Nothing,
        },
    }
}

/// The ranges of edits.
pub open spec fn edit_ranges(v: Seq<EditView>) -> Seq<Range> {
    v.map_values(|e: EditView| e.0)
}

/// The references of the variable `name`, unsorted: its definitions when
/// asked for, then its `$(name` and `${name` references.
pub open spec fn variable_reference_edits(
    bs: Seq<u8>,
    vars: Seq<VariableDefinitionView>,
    name: Seq<char>,
    include_declaration: bool,
) -> Seq<EditView> {
    (if include_declaration {
        variable_def_edits(bs, vars, name, ""@)
    } else {
        seq![]
    }) + reference_edits(bs, seq![0x24u8, 0x28u8] + utf8(name), name, ""@) + reference_edits(
        bs,
        seq![0x24u8, 0x7bu8] + utf8(name),
        name,
        ""@,
    )
}

/// The references of the target `name` in the rules, rule by rule: its
/// definitions at the rule's start when asked for, then its words among the
/// prerequisites.
pub open spec fn target_reference_edits(bs: Seq<u8>, rules: Seq<RuleView>, name: Seq<char>, include_declaration: bool) -> Seq<EditView>
    decreases rules.len(),
{
    if rules.len() == 0 {
        seq![]
    } else {
        let r = rules.last();
        target_reference_edits(bs, rules.drop_last(), name, include_declaration) + (if include_declaration {
            target_def_edits(bs, r, name, ""@)
        } else {
            seq![]
        }) + repeated_prereq_edits(bs, r, r.prerequisites, name, ""@)
    }
}

/// A special target name, such as `.PHONY`: it starts with a dot.
pub open spec fn is_special_name(t: Seq<char>) -> bool {
    t.len() > 0 && t[0] == '.'
}

/// The rule has a special target and no target `name`.
pub open spec fn special_rule_without(r: RuleView, name: Seq<char>) -> bool {
    &&& exists|i: int| 0 <= i < r.targets.len() && is_special_name(#[trigger] r.targets[i])
    &&& !r.targets.contains(name)
}

/// The prerequisite words `name` of the rules with a special target (and
/// no target `name`), found again in a second pass.
pub open spec fn special_rule_edits(bs: Seq<u8>, rules: Seq<RuleView>, name: Seq<char>) -> Seq<EditView>
    decreases rules.len(),
{
    if rules.len() == 0 {
        seq![]
    } else {
        let r = rules.last();
        special_rule_edits(bs, rules.drop_last(), name) + if special_rule_without(r, name) {
            repeated_prereq_edits(bs, r, r.prerequisites, name, ""@)
        } else {
            seq![]
        }
    }
}

/// The unsorted references of the symbol at `position`.
pub open spec fn reference_ranges(
    bs: Seq<u8>,
    text: Seq<char>,
    m: MakefileView,
    position: Position,
    include_declaration: bool,
) -> Seq<Range> {
    match spec_position_to_offset(bs, position) {
        None => seq![],
        Some(o) => match reference_subject(bs, text, m, o) {
            ReferenceSubject::Variable(v) => edit_ranges(variable_reference_edits(bs, m.variables, v, include_declaration)),
            ReferenceSubject::Target(w) => edit_ranges(
                target_reference_edits(bs, m.rules, w, include_declaration) + special_rule_edits(bs, m.rules, w),
            ),
            ReferenceSubject::Nothing => seq![],
        },
    }
}

/// The ranges keyed by their start.
pub open spec fn keyed_ranges(v: Seq<Range>) -> Seq<(Position, Range)> {
    v.map_values(|r: Range| (r.start, r))
}

/// `out` is `raw` sorted by start, keeping the first range for each start
/// (ranges of one name with the same start are the same range).
pub open spec fn sorted_ranges(out: Seq<Range>, raw: Seq<Range>) -> bool {
    first_per_key_view::<Position, Range>(keyed_ranges(out), keyed_ranges(raw))
}

/// The ranges of the locations.
pub open spec fn locations_view(v: Seq<Location>) -> Seq<Range> {
    v.map_values(|l: Location| l.range)
}

/// Every location is in the document `uri`.
pub open spec fn all_in(v: Seq<Location>, uri: Seq<char>) -> bool {
    forall|i: int| 0 <= i < v.len() ==> (#[trigger] v[i]).uri@ == uri
}

proof fn lemma_first_key_index_same_keys<A, B>(a: Seq<(Position, A)>, b: Seq<(Position, B)>, key: Position, k: int)
    requires
        a.len() == b.len(),
        forall|i: int| 0 <= i < a.len() ==> (#[trigger] a[i]).0 == b[i].0,
    ensures
        first_key_index(a, key, k) == first_key_index(b, key, k),
    decreases a.len() - k,
{
    if 0 <= k < a.len() && a[k].0 != key {
        lemma_first_key_index_same_keys(a, b, key, k + 1);
    }
}

/// Sorting edits sorts their ranges.
proof fn lemma_sorted_ranges(out: Seq<EditView>, raw: Seq<EditView>)
    requires
        sorted_edits(out, raw),
    ensures
        sorted_ranges(edit_ranges(out), edit_ranges(raw)),
{
    let ko = out.map_values(|e: EditView| (e.0.start, e));
    let kr = raw.map_values(|e: EditView| (e.0.start, e));
    let ro = keyed_ranges(edit_ranges(out));
    let rr = keyed_ranges(edit_ranges(raw));
    assert forall|i: int, j: int| 0 <= i < j < ro.len() implies Position::key_lt(#[trigger] ro[i].0, #[trigger] ro[j].0) by {
        assert(ro[i].0 == ko[i].0 && ro[j].0 == ko[j].0);
    }
    assert forall|i: int| 0 <= i < rr.len() implies view_keys::<Position, Range>(ro).contains(#[trigger] rr[i].0) by {
        assert(kr[i].0 == rr[i].0);
        assert(view_keys::<Position, EditView>(ko).contains(kr[i].0));
        let j = choose|j: int| 0 <= j < view_keys::<Position, EditView>(ko).len() && view_keys::<Position, EditView>(ko)[j] == kr[i].0;
        assert(view_keys::<Position, Range>(ro)[j] == rr[i].0);
    }
    assert forall|j: int| 0 <= j < ro.len() implies first_key_index(rr, (#[trigger] ro[j]).0, 0) < rr.len()
        && rr[first_key_index(rr, ro[j].0, 0)] == ro[j] by {
        assert(ko[j].0 == ro[j].0);
        assert forall|i: int| 0 <= i < kr.len() implies (#[trigger] kr[i]).0 == rr[i].0 by {}
        lemma_first_key_index_same_keys(kr, rr, ko[j].0, 0);
        lemma_first_key_index_bounds(kr, ko[j].0, 0);
        let idx = first_key_index(kr, ko[j].0, 0);
        assert(kr[idx] == ko[j]);
        assert(raw[idx] == out[j]);
    }
}

/// The locations in `uri` of the ranges of the edits.
fn to_locations(edits: Vec<TextEdit>, uri: &str) -> (r: Vec<Location>)
    ensures
        locations_view(r@) == edit_ranges(edits_view(edits@)),
        all_in(r@, uri@),
{
    let ghost ev = edit_ranges(edits_view(edits@));
    let mut out: Vec<Location> = Vec::new();
    let mut i: usize = 0;
    while i < edits.len()
        invariant
            i <= edits@.len(),
            ev == edit_ranges(edits_view(edits@)),
            ev.len() == edits@.len(),
            out@.len() == i,
            locations_view(out@) == ev.subrange(0, i as int),
            all_in(out@, uri@),
        decreases edits@.len() - i,
    {
        let ghost before = out@;
        out.push(Location { uri: uri.to_owned(), range: edits[i].range });
        assert(edits_view(edits@)[i as int] == edits@[i as int]@);
        assert(ev[i as int] == edits@[i as int].range);
        assert forall|k: int| 0 <= k < i + 1 implies #[trigger] locations_view(out@)[k] == ev.subrange(0, i + 1)[k] by {
            if k < i {
                assert(out@[k] == before[k]);
                assert(locations_view(before)[k] == ev.subrange(0, i as int)[k]);
            }
        }
        assert(locations_view(out@) =~= ev.subrange(0, i + 1));
        assert forall|k: int| 0 <= k < out@.len() implies (#[trigger] out@[k]).uri@ == uri@ by {
            if k < before.len() {
                assert(out@[k] == before[k]);
            }
        }
        i += 1;
    }
    assert(ev.subrange(0, i as int) =~= ev);
    out
}

/// Sorts the collected edits and turns their ranges into locations.
fn sorted_locations(raw: Vec<(Position, TextEdit)>, Ghost(acc): Ghost<Seq<EditView>>, uri: &str) -> (r: Vec<Location>)
    requires
        entries_view(raw@) == keyed_edits(acc),
    ensures
        sorted_ranges(locations_view(r@), edit_ranges(acc)),
        all_in(r@, uri@),
{
    let edits = sort_edits(raw, Ghost(acc));
    proof {
        lemma_sorted_ranges(edits_view(edits@), acc);
    }
    to_locations(edits, uri)
}

/// Find all references to a variable name (in `$(VAR)` or `${VAR}`
/// patterns), with its definitions when `include_declaration` is set.
pub fn find_variable_references(
    makefile: &Makefile,
    source_text: &str,
    var_name: &str,
    uri: &str,
    include_declaration: bool,
) -> (r: Vec<Location>)
    requires
        source_text.spec_bytes().len() <= u32::MAX,
    ensures
        sorted_ranges(
            locations_view(r@),
            edit_ranges(variable_reference_edits(source_text.spec_bytes(), makefile@.variables, var_name@, include_declaration)),
        ),
        all_in(r@, uri@),
{
    let mut raw: Vec<(Position, TextEdit)> = Vec::new();
    let ghost empty: Seq<EditView> = seq![];
    assert(entries_view(raw@) =~= keyed_edits(empty));
    let ghost mut acc = empty;
    if include_declaration {
        let Ghost(a) = push_variable_def_edits(&mut raw, source_text, makefile, var_name, "", Ghost(acc));
        proof {
            acc = a;
        }
    }
    let paren = reference_pattern(0x28, var_name);
    let Ghost(acc2) = push_reference_edits(&mut raw, source_text, &paren, var_name, "", Ghost(acc));
    let brace = reference_pattern(0x7b, var_name);
    let Ghost(acc3) = push_reference_edits(&mut raw, source_text, &brace, var_name, "", Ghost(acc2));
    assert(acc3 =~= variable_reference_edits(source_text.spec_bytes(), makefile@.variables, var_name@, include_declaration));
    sorted_locations(raw, Ghost(acc3), uri)
}

/// Does the rule have a special target and no target `name`?
fn special_rule_without_exec(rule: &Rule, name: &str) -> (r: bool)
    ensures
        r == special_rule_without(rule@, name@),
{
    let ghost ts = strings_view(rule.targets@);
    let mut has_special = false;
    let mut has_name = false;
    let mut i: usize = 0;
    while i < rule.targets.len()
        invariant
            i <= rule.targets@.len(),
            ts == strings_view(rule.targets@),
            has_special == exists|k: int| 0 <= k < i && is_special_name(#[trigger] ts[k]),
            has_name == exists|k: int| 0 <= k < i && #[trigger] ts[k] == name@,
        decreases rule.targets@.len() - i,
    {
        let t = &rule.targets[i];
        assert(ts[i as int] == t@);
        let tb = t.as_str().as_bytes();
        proof {
            lemma_first_byte_ascii(t@, 0x2e);
        }
        if tb.len() > 0 && tb[0] == 0x2e {
            has_special = true;
        }
        if str_eq(t.as_str(), name) {
            has_name = true;
        }
        i += 1;
    }
    proof {
        if ts.contains(name@) {
            let k = choose|k: int| 0 <= k < ts.len() && ts[k] == name@;
            assert(ts[k] == name@);
        }
    }
    has_special && !has_name
}

/// Find all references to a target name: its definitions when
/// `include_declaration` is set, its words among prerequisites, found
/// again in the rules of special targets.
pub fn find_target_references(
    makefile: &Makefile,
    source_text: &str,
    target_name: &str,
    uri: &str,
    include_declaration: bool,
) -> (r: Vec<Location>)
    requires
        source_text.spec_bytes().len() <= u32::MAX,
    ensures
        sorted_ranges(
            locations_view(r@),
            edit_ranges(
                target_reference_edits(source_text.spec_bytes(), makefile@.rules, target_name@, include_declaration)
                    + special_rule_edits(source_text.spec_bytes(), makefile@.rules, target_name@),
            ),
        ),
        all_in(r@, uri@),
{
    let ghost b = source_text.spec_bytes();
    let ghost rules = makefile@.rules;
    let mut raw: Vec<(Position, TextEdit)> = Vec::new();
    let ghost mut acc: Seq<EditView> = seq![];
    assert(entries_view(raw@) =~= keyed_edits(acc));
    let mut i: usize = 0;
    while i < makefile.rules.len()
        invariant
            i <= makefile.rules@.len(),
            b == source_text.spec_bytes(),
            b.len() <= u32::MAX,
            rules == makefile@.rules,
            acc == target_reference_edits(b, rules.subrange(0, i as int), target_name@, include_declaration),
            entries_view(raw@) == keyed_edits(acc),
        decreases makefile.rules@.len() - i,
    {
        let rule = &makefile.rules[i];
        assert(rules[i as int] == rule@);
        assert(rules.subrange(0, i + 1).drop_last() =~= rules.subrange(0, i as int));
        let ghost before = acc;
        if include_declaration {
            let Ghost(a) = push_target_def_edits(&mut raw, source_text, rule, target_name, "", Ghost(acc));
            proof {
                acc = a;
            }
        } else {
            assert(acc + seq![] =~= acc);
        }
        let Ghost(next) = push_repeated_prereq_edits(&mut raw, source_text, rule, target_name, "", Ghost(acc));
        proof {
            acc = next;
        }
        assert(acc =~= target_reference_edits(b, rules.subrange(0, i + 1), target_name@, include_declaration));
        i += 1;
    }
    assert(rules.subrange(0, i as int) =~= rules);
    let ghost mid = acc;
    assert(mid + special_rule_edits(b, rules.subrange(0, 0), target_name@) =~= mid);
    let mut j: usize = 0;
    while j < makefile.rules.len()
        invariant
            j <= makefile.rules@.len(),
            b == source_text.spec_bytes(),
            b.len() <= u32::MAX,
            rules == makefile@.rules,
            acc == mid + special_rule_edits(b, rules.subrange(0, j as int), target_name@),
            entries_view(raw@) == keyed_edits(acc),
        decreases makefile.rules@.len() - j,
    {
        let rule = &makefile.rules[j];
        assert(rules[j as int] == rule@);
        assert(rules.subrange(0, j + 1).drop_last() =~= rules.subrange(0, j as int));
        if special_rule_without_exec(rule, target_name) {
            let Ghost(next) = push_repeated_prereq_edits(&mut raw, source_text, rule, target_name, "", Ghost(acc));
            proof {
                acc = next;
            }
        } else {
            assert(acc + seq![] =~= acc);
        }
        assert(acc =~= mid + special_rule_edits(b, rules.subrange(0, j + 1), target_name@));
        j += 1;
    }
    assert(rules.subrange(0, j as int) =~= rules);
    sorted_locations(raw, Ghost(acc), uri)
}

/// The subject at `offset`, found as `reference_subject` says: its name,
/// and whether it is a variable.
fn subject_at<'a>(makefile: &Makefile, source_text: &'a str, offset: usize) -> (r: Option<(&'a str, bool)>)
    requires
        offset <= source_text.spec_bytes().len(),
    ensures
        match r {
            Some((name, is_var)) => if is_var {
                reference_subject(source_text.spec_bytes(), source_text@, makefile@, offset as int)
                    == ReferenceSubject::Variable(name@)
            } else {
                reference_subject(source_text.spec_bytes(), source_text@, makefile@, offset as int)
                    == ReferenceSubject::Target(name@)
            },
            None => reference_subject(source_text.spec_bytes(), source_text@, makefile@, offset as int)
                == ReferenceSubject::Nothing,
        },
{
    if let Some(var_name) = lossless_variable_at_offset(source_text, offset) {
        return Some((var_name, true));
    }
    let in_prereqs = lossless_is_in_prerequisites(source_text, offset);
    if let Some(word) = lossless_word_at_offset(source_text, offset) {
        if in_prereqs || on_target_definition_exec(makefile, offset, word) {
            return Some((word, false));
        }
        if on_variable_definition_exec(makefile, offset, word) {
            return Some((word, true));
        }
    }
    None
}

/// The ranges of a concatenation of edits.
proof fn lemma_edit_ranges_concat(a: Seq<EditView>, b: Seq<EditView>)
    ensures
        edit_ranges(a + b) == edit_ranges(a) + edit_ranges(b),
{
    assert(edit_ranges(a + b) =~= edit_ranges(a) + edit_ranges(b));
}

/// Each element of `a` is one of `a + b` and of `b + a`.
proof fn lemma_contains_concat(a: Seq<Range>, b: Seq<Range>, x: Range)
    ensures
        a.contains(x) ==> (a + b).contains(x) && (b + a).contains(x),
        (a + b).contains(x) ==> a.contains(x) || b.contains(x),
{
    if a.contains(x) {
        let k = choose|k: int| 0 <= k < a.len() && a[k] == x;
        assert((a + b)[k] == x);
        assert((b + a)[b.len() + k] == x);
    }
    if (a + b).contains(x) {
        let k = choose|k: int| 0 <= k < (a + b).len() && (a + b)[k] == x;
        if k < a.len() {
            assert(a[k] == x);
        } else {
            assert(b[k - a.len()] == x);
        }
    }
}

/// The target references without the definitions are among those with them.
proof fn lemma_target_references_among(bs: Seq<u8>, rules: Seq<RuleView>, name: Seq<char>, x: Range)
    ensures
        edit_ranges(target_reference_edits(bs, rules, name, false)).contains(x) ==> edit_ranges(
            target_reference_edits(bs, rules, name, true),
        ).contains(x),
    decreases rules.len(),
{
    if rules.len() > 0 {
        let r = rules.last();
        let pf = target_reference_edits(bs, rules.drop_last(), name, false);
        let pt = target_reference_edits(bs, rules.drop_last(), name, true);
        let d = target_def_edits(bs, r, name, ""@);
        let q = repeated_prereq_edits(bs, r, r.prerequisites, name, ""@);
        lemma_target_references_among(bs, rules.drop_last(), name, x);
        assert(target_reference_edits(bs, rules, name, false) == pf + seq![] + q);
        assert(pf + Seq::<EditView>::empty() =~= pf);
        lemma_edit_ranges_concat(pf, q);
        lemma_edit_ranges_concat(pt + d, q);
        lemma_edit_ranges_concat(pt, d);
        lemma_contains_concat(edit_ranges(pf), edit_ranges(q), x);
        lemma_contains_concat(edit_ranges(pt), edit_ranges(d), x);
        lemma_contains_concat(edit_ranges(pt) + edit_ranges(d), edit_ranges(q), x);
        lemma_contains_concat(edit_ranges(q), edit_ranges(pt) + edit_ranges(d), x);
    }
}

/// Every range of the references without the declaration is one of the
/// references with it.
proof fn lemma_reference_ranges_among(bs: Seq<u8>, text: Seq<char>, m: MakefileView, position: Position, x: Range)
    ensures
        reference_ranges(bs, text, m, position, false).contains(x) ==> reference_ranges(bs, text, m, position, true).contains(x),
{
    match spec_position_to_offset(bs, position) {
        None => {},
        Some(o) => match reference_subject(bs, text, m, o) {
            ReferenceSubject::Variable(v) => {
                let d = variable_def_edits(bs, m.variables, v, ""@);
                let r1 = reference_edits(bs, seq![0x24u8, 0x28u8] + utf8(v), v, ""@);
                let r2 = reference_edits(bs, seq![0x24u8, 0x7bu8] + utf8(v), v, ""@);
                assert(variable_reference_edits(bs, m.variables, v, false) =~= r1 + r2);
                assert(variable_reference_edits(bs, m.variables, v, true) =~= d + (r1 + r2));
                lemma_edit_ranges_concat(d, r1 + r2);
                lemma_contains_concat(edit_ranges(r1 + r2), edit_ranges(d), x);
            },
            ReferenceSubject::Target(w) => {
                let sp = special_rule_edits(bs, m.rules, w);
                let f = target_reference_edits(bs, m.rules, w, false);
                let t = target_reference_edits(bs, m.rules, w, true);
                lemma_edit_ranges_concat(f, sp);
                lemma_edit_ranges_concat(t, sp);
                lemma_target_references_among(bs, m.rules, w, x);
                lemma_contains_concat(edit_ranges(f), edit_ranges(sp), x);
                lemma_contains_concat(edit_ranges(t), edit_ranges(sp), x);
                lemma_contains_concat(edit_ranges(sp), edit_ranges(t), x);
            },
            ReferenceSubject::Nothing => {},
        },
    }
}

/// A name range of `len` bytes: it ends on its line, `len` columns after
/// its start.
pub open spec fn shaped(r: Range, len: int) -> bool {
    r.end == (Position { line: r.start.line, character: r.start.character.wrapping_add(len as u32) })
}

/// Every edit of `v` has a name range of `len` bytes.
pub open spec fn all_shaped(v: Seq<EditView>, len: int) -> bool {
    forall|k: int| 0 <= k < v.len() ==> shaped(#[trigger] v[k].0, len)
}

proof fn lemma_all_shaped_concat(a: Seq<EditView>, b: Seq<EditView>, len: int)
    requires
        all_shaped(a, len),
        all_shaped(b, len),
    ensures
        all_shaped(a + b, len),
{
    assert forall|k: int| 0 <= k < (a + b).len() implies shaped(#[trigger] (a + b)[k].0, len) by {
        if k < a.len() {
            assert((a + b)[k] == a[k]);
        } else {
            assert((a + b)[k] == b[k - a.len()]);
        }
    }
}

proof fn lemma_prereq_edits_shaped(bs: Seq<u8>, r: RuleView, ps: Seq<Seq<char>>, name: Seq<char>)
    ensures
        all_shaped(repeated_prereq_edits(bs, r, ps, name, ""@), utf8(name).len() as int),
    decreases ps.len(),
{
    if ps.len() > 0 {
        lemma_prereq_edits_shaped(bs, r, ps.drop_last(), name);
        let w = prereq_word_edits(bs, r, name, ""@);
        assert(all_shaped(w, utf8(name).len() as int));
        assert(all_shaped(Seq::<EditView>::empty(), utf8(name).len() as int));
        lemma_all_shaped_concat(repeated_prereq_edits(bs, r, ps.drop_last(), name, ""@), w, utf8(name).len() as int);
        lemma_all_shaped_concat(
            repeated_prereq_edits(bs, r, ps.drop_last(), name, ""@),
            Seq::<EditView>::empty(),
            utf8(name).len() as int,
        );
    }
}

proof fn lemma_target_edits_shaped(bs: Seq<u8>, rules: Seq<RuleView>, name: Seq<char>, include_declaration: bool)
    ensures
        all_shaped(target_reference_edits(bs, rules, name, include_declaration), utf8(name).len() as int),
        all_shaped(special_rule_edits(bs, rules, name), utf8(name).len() as int),
    decreases rules.len(),
{
    let len = utf8(name).len() as int;
    assert(all_shaped(Seq::<EditView>::empty(), len));
    if rules.len() > 0 {
        let r = rules.last();
        lemma_target_edits_shaped(bs, rules.drop_last(), name, include_declaration);
        lemma_prereq_edits_shaped(bs, r, r.prerequisites, name);
        let d = target_def_edits(bs, r, name, ""@);
        assert(all_shaped(d, len));
        let dd = if include_declaration { d } else { Seq::<EditView>::empty() };
        let prev = target_reference_edits(bs, rules.drop_last(), name, include_declaration);
        let q = repeated_prereq_edits(bs, r, r.prerequisites, name, ""@);
        lemma_all_shaped_concat(prev, dd, len);
        lemma_all_shaped_concat(prev + dd, q, len);
        lemma_all_shaped_concat(special_rule_edits(bs, rules.drop_last(), name), q, len);
        lemma_all_shaped_concat(special_rule_edits(bs, rules.drop_last(), name), Seq::<EditView>::empty(), len);
    }
}

/// All references of the symbol at `position` are name ranges of the
/// same length: two of them with the same start are the same range.
proof fn lemma_reference_ranges_shaped(bs: Seq<u8>, text: Seq<char>, m: MakefileView, position: Position, include_declaration: bool)
    ensures
        forall|i: int, j: int|
            0 <= i < reference_ranges(bs, text, m, position, include_declaration).len() && 0 <= j < reference_ranges(
                bs,
                text,
                m,
                position,
                true,
            ).len() && (#[trigger] reference_ranges(bs, text, m, position, include_declaration)[i]).start == (
            #[trigger] reference_ranges(bs, text, m, position, true)[j]).start ==> reference_ranges(
                bs,
                text,
                m,
                position,
                include_declaration,
            )[i] == reference_ranges(bs, text, m, position, true)[j],
{
    match spec_position_to_offset(bs, position) {
        None => {},
        Some(o) => match reference_subject(bs, text, m, o) {
            ReferenceSubject::Variable(v) => {
                let len = utf8(v).len() as int;
                let d = variable_def_edits(bs, m.variables, v, ""@);
                let r1 = reference_edits(bs, seq![0x24u8, 0x28u8] + utf8(v), v, ""@);
                let r2 = reference_edits(bs, seq![0x24u8, 0x7bu8] + utf8(v), v, ""@);
                assert(all_shaped(d, len));
                assert(all_shaped(r1, len));
                assert(all_shaped(r2, len));
                assert(all_shaped(Seq::<EditView>::empty(), len));
                lemma_all_shaped_concat(d, r1, len);
                lemma_all_shaped_concat(d + r1, r2, len);
                lemma_all_shaped_concat(Seq::<EditView>::empty(), r1, len);
                lemma_all_shaped_concat(Seq::<EditView>::empty() + r1, r2, len);
                let e1 = variable_reference_edits(bs, m.variables, v, include_declaration);
                let e2 = variable_reference_edits(bs, m.variables, v, true);
                assert(all_shaped(e1, len));
                assert(all_shaped(e2, len));
                assert forall|i: int, j: int|
                    0 <= i < edit_ranges(e1).len() && 0 <= j < edit_ranges(e2).len() && (#[trigger] edit_ranges(e1)[i]).start
                        == (#[trigger] edit_ranges(e2)[j]).start implies edit_ranges(e1)[i] == edit_ranges(e2)[j] by {
                    assert(shaped(e1[i].0, len));
                    assert(shaped(e2[j].0, len));
                }
            },
            ReferenceSubject::Target(w) => {
                let len = utf8(w).len() as int;
                lemma_target_edits_shaped(bs, m.rules, w, include_declaration);
                lemma_target_edits_shaped(bs, m.rules, w, true);
                let sp = special_rule_edits(bs, m.rules, w);
                let e1 = target_reference_edits(bs, m.rules, w, include_declaration) + sp;
                let e2 = target_reference_edits(bs, m.rules, w, true) + sp;
                lemma_all_shaped_concat(target_reference_edits(bs, m.rules, w, include_declaration), sp, len);
                lemma_all_shaped_concat(target_reference_edits(bs, m.rules, w, true), sp, len);
                assert forall|i: int, j: int|
                    0 <= i < edit_ranges(e1).len() && 0 <= j < edit_ranges(e2).len() && (#[trigger] edit_ranges(e1)[i]).start
                        == (#[trigger] edit_ranges(e2)[j]).start implies edit_ranges(e1)[i] == edit_ranges(e2)[j] by {
                    assert(shaped(e1[i].0, len));
                    assert(shaped(e2[j].0, len));
                }
            },
            ReferenceSubject::Nothing => {},
        },
    }
}

/// Some range of `v` starts at `p`.
pub open spec fn starts_among(v: Seq<Range>, p: Position) -> bool {
    exists|j: int| 0 <= j < v.len() && #[trigger] v[j].start == p
}

/// The references found without the declaration start where references
/// found with it start, and both come strictly ordered by their start:
/// asking for the declaration only adds references.
pub proof fn lemma_references_without_declaration_among_with(
    bs: Seq<u8>,
    text: Seq<char>,
    m: MakefileView,
    position: Position,
    refs_without: Seq<Range>,
    refs_with: Seq<Range>,
)
    requires
        sorted_ranges(refs_without, reference_ranges(bs, text, m, position, false)),
        sorted_ranges(refs_with, reference_ranges(bs, text, m, position, true)),
    ensures
        forall|i: int, j: int| 0 <= i < j < refs_without.len() ==> Position::key_lt(#[trigger] refs_without[i].start, #[trigger] refs_without[j].start),
        forall|i: int, j: int| 0 <= i < j < refs_with.len() ==> Position::key_lt(#[trigger] refs_with[i].start, #[trigger] refs_with[j].start),
        forall|i: int| 0 <= i < refs_without.len() ==> starts_among(refs_with, #[trigger] refs_without[i].start),
        forall|i: int| 0 <= i < refs_without.len() ==> refs_with.contains(#[trigger] refs_without[i]),
{
    let a = reference_ranges(bs, text, m, position, false);
    let b = reference_ranges(bs, text, m, position, true);
    assert forall|i: int, j: int| 0 <= i < j < refs_without.len() implies Position::key_lt(#[trigger] refs_without[i].start, #[trigger] refs_without[j].start) by {
        assert(keyed_ranges(refs_without)[i].0 == refs_without[i].start);
        assert(keyed_ranges(refs_without)[j].0 == refs_without[j].start);
    }
    assert forall|i: int, j: int| 0 <= i < j < refs_with.len() implies Position::key_lt(#[trigger] refs_with[i].start, #[trigger] refs_with[j].start) by {
        assert(keyed_ranges(refs_with)[i].0 == refs_with[i].start);
        assert(keyed_ranges(refs_with)[j].0 == refs_with[j].start);
    }
    assert forall|i: int| 0 <= i < refs_without.len() implies starts_among(refs_with, #[trigger] refs_without[i].start) by {
        let ka = keyed_ranges(a);
        let e = keyed_ranges(refs_without)[i];
        let fi = first_key_index(ka, e.0, 0);
        lemma_first_key_index_bounds(ka, e.0, 0);
        assert(fi < ka.len() && ka[fi] == e);
        assert(a[fi] == refs_without[i]);
        assert(a.contains(refs_without[i]));
        lemma_reference_ranges_among(bs, text, m, position, refs_without[i]);
        let k = choose|k: int| 0 <= k < b.len() && b[k] == refs_without[i];
        let kb = keyed_ranges(b);
        assert(kb[k].0 == refs_without[i].start);
        assert(view_keys::<Position, Range>(keyed_ranges(refs_with)).contains(kb[k].0));
        let j = choose|j: int| 0 <= j < view_keys::<Position, Range>(keyed_ranges(refs_with)).len()
            && view_keys::<Position, Range>(keyed_ranges(refs_with))[j] == kb[k].0;
        assert(keyed_ranges(refs_with)[j].0 == refs_with[j].start);
        assert(view_keys::<Position, Range>(keyed_ranges(refs_with))[j] == keyed_ranges(refs_with)[j].0);
        assert(refs_with[j].start == refs_without[i].start);
        assert(0 <= j < refs_with.len());
    }
    lemma_reference_ranges_shaped(bs, text, m, position, false);
    assert forall|i: int| 0 <= i < refs_without.len() implies refs_with.contains(#[trigger] refs_without[i]) by {
        let ka = keyed_ranges(a);
        let e = keyed_ranges(refs_without)[i];
        let fi = first_key_index(ka, e.0, 0);
        lemma_first_key_index_bounds(ka, e.0, 0);
        assert(fi < ka.len() && ka[fi] == e);
        assert(a[fi] == refs_without[i]);
        assert(starts_among(refs_with, refs_without[i].start));
        let j = choose|j: int| 0 <= j < refs_with.len() && #[trigger] refs_with[j].start == refs_without[i].start;
        let kw = keyed_ranges(refs_with);
        let kb = keyed_ranges(b);
        let fj = first_key_index(kb, kw[j].0, 0);
        lemma_first_key_index_bounds(kb, kw[j].0, 0);
        assert(fj < kb.len() && kb[fj] == kw[j]);
        assert(b[fj] == refs_with[j]);
        assert(a[fi].start == b[fj].start);
        assert(a[fi] == b[fj]);
        assert(refs_with[j] == refs_without[i]);
    }
}

/// Find all references to the symbol at the given position.
pub fn find_references(
    makefile: &Makefile,
    source_text: &str,
    position: Position,
    uri: &str,
    include_declaration: bool,
) -> (r: Vec<Location>)
    requires
        source_text.spec_bytes().len() <= u32::MAX,
    ensures
        sorted_ranges(
            locations_view(r@),
            reference_ranges(source_text.spec_bytes(), source_text@, makefile@, position, include_declaration),
        ),
        all_in(r@, uri@),
{
    let offset = match try_position_to_offset(source_text, position) {
        Some(o) => o,
        None => {
            return Vec::new();
        },
    };
    proof {
        crate::position::lemma_position_to_offset_bounds(source_text.spec_bytes(), position);
    }
    match subject_at(makefile, source_text, offset) {
        Some((name, true)) => find_variable_references(makefile, source_text, name, uri, include_declaration),
        Some((name, false)) => find_target_references(makefile, source_text, name, uri, include_declaration),
        None => Vec::new(),
    }
}

proof fn lemma_edit_ranges_append(a: Seq<EditView>, b: Seq<EditView>)
    ensures
        edit_ranges(a + b) == edit_ranges(a) + edit_ranges(b),
{
    assert(edit_ranges(a + b) =~= edit_ranges(a) + edit_ranges(b));
}

proof fn lemma_prereq_word_ranges(bs: Seq<u8>, r: RuleView, old: Seq<char>, a: Seq<char>, b: Seq<char>)
    ensures
        edit_ranges(prereq_word_edits(bs, r, old, a)) == edit_ranges(prereq_word_edits(bs, r, old, b)),
{
    assert(edit_ranges(prereq_word_edits(bs, r, old, a)) =~= edit_ranges(prereq_word_edits(bs, r, old, b)));
}

proof fn lemma_repeated_prereq_ranges(bs: Seq<u8>, r: RuleView, ps: Seq<Seq<char>>, old: Seq<char>, a: Seq<char>, b: Seq<char>)
    ensures
        edit_ranges(repeated_prereq_edits(bs, r, ps, old, a)) == edit_ranges(repeated_prereq_edits(bs, r, ps, old, b)),
    decreases ps.len(),
{
    if ps.len() > 0 {
        lemma_repeated_prereq_ranges(bs, r, ps.drop_last(), old, a, b);
        lemma_prereq_word_ranges(bs, r, old, a, b);
        let wa = if ps.last() == old { prereq_word_edits(bs, r, old, a) } else { seq![] };
        let wb = if ps.last() == old { prereq_word_edits(bs, r, old, b) } else { seq![] };
        lemma_edit_ranges_append(repeated_prereq_edits(bs, r, ps.drop_last(), old, a), wa);
        lemma_edit_ranges_append(repeated_prereq_edits(bs, r, ps.drop_last(), old, b), wb);
        assert(edit_ranges(wa) =~= edit_ranges(wb));
    }
}

/// The references of a variable, with its definitions, are the ranges that
/// renaming it edits, in the same order.
pub proof fn lemma_variable_references_are_rename_ranges(
    bs: Seq<u8>,
    vars: Seq<VariableDefinitionView>,
    name: Seq<char>,
    new: Seq<char>,
)
    ensures
        edit_ranges(variable_reference_edits(bs, vars, name, true)) == edit_ranges(
            variable_rename_edits(bs, vars, name, new),
        ),
{
    let p = seq![0x24u8, 0x28u8] + utf8(name);
    let q = seq![0x24u8, 0x7bu8] + utf8(name);
    let d1 = variable_def_edits(bs, vars, name, ""@);
    let d2 = variable_def_edits(bs, vars, name, new);
    let r1 = reference_edits(bs, p, name, ""@);
    let r2 = reference_edits(bs, p, name, new);
    let s1 = reference_edits(bs, q, name, ""@);
    let s2 = reference_edits(bs, q, name, new);
    assert(edit_ranges(d1) =~= edit_ranges(d2));
    assert(edit_ranges(r1) =~= edit_ranges(r2));
    assert(edit_ranges(s1) =~= edit_ranges(s2));
    lemma_edit_ranges_append(d1 + r1, s1);
    lemma_edit_ranges_append(d1, r1);
    lemma_edit_ranges_append(d2 + r2, s2);
    lemma_edit_ranges_append(d2, r2);
}

/// The references of a target, with its definitions, are the ranges that
/// renaming it edits, in the same order (the second pass over the rules of
/// special targets only finds some of them again).
pub proof fn lemma_target_references_are_rename_ranges(bs: Seq<u8>, rules: Seq<RuleView>, name: Seq<char>, new: Seq<char>)
    ensures
        edit_ranges(target_reference_edits(bs, rules, name, true)) == edit_ranges(target_rename_edits(bs, rules, name, new)),
    decreases rules.len(),
{
    if rules.len() > 0 {
        let r = rules.last();
        lemma_target_references_are_rename_ranges(bs, rules.drop_last(), name, new);
        lemma_repeated_prereq_ranges(bs, r, r.prerequisites, name, ""@, new);
        let t1 = target_def_edits(bs, r, name, ""@);
        let t2 = target_def_edits(bs, r, name, new);
        assert(edit_ranges(t1) =~= edit_ranges(t2));
        let p1 = repeated_prereq_edits(bs, r, r.prerequisites, name, ""@);
        let p2 = repeated_prereq_edits(bs, r, r.prerequisites, name, new);
        let a1 = target_reference_edits(bs, rules.drop_last(), name, true);
        let a2 = target_rename_edits(bs, rules.drop_last(), name, new);
        lemma_edit_ranges_append(a1 + t1, p1);
        lemma_edit_ranges_append(a1, t1);
        lemma_edit_ranges_append(a2, t2 + p2);
        lemma_edit_ranges_append(t2, p2);
        assert(target_rename_edits(bs, rules, name, new) == a2 + (t2 + p2));
    }
}

} // verus!
