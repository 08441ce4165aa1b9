//! Rename support for Makefiles.

use vstd::prelude::*;
use vstd::string::StringSliceAdditionalSpecFns;
use vstd::utf8::*;

use crate::goto::{ident_run_start, ref_name_start, scan_ref_name_start, scan_word_start, spec_is_in_prerequisites, spec_word_at_offset};
use crate::makefile::{
    lossless_is_in_prerequisites, lossless_variable_at_offset, lossless_variable_name_at, lossless_word_at_offset,
    Makefile, MakefileView, RuleView, VariableDefinitionView,
};
use crate::position::{offset_to_position, spec_offset_to_position, spec_position_to_offset, try_position_to_offset, Position, Range};
use crate::scip::{all_matches, defined_names, defined_variable_names, find_all_in, find_words_in, first_byte_exec, first_byte_from, lemma_all_matches_bounds, lemma_first_byte_bounds, lemma_whole_word_matches_bounds, offsets_view, range_within, whole_word_matches, COLON};
use crate::position::{NEWLINE, TextRange};
use crate::makefile::rules_view;
use crate::strs::push_str;
use crate::sorted::{entries_view, first_entries_by_key, first_per_key_view, lemma_first_per_key_view};
use crate::strs::{contains_string, str_eq, strings_view, utf8};

verus! {

broadcast use vstd::utf8::encode_utf8_decode_utf8;

/// A replacement of a range of the document.
pub struct TextEdit {
    pub range: Range,
    pub new_text: String,
}

impl View for TextEdit {
    type V = (Range, Seq<char>);

    open spec fn view(&self) -> (Range, Seq<char>) {
        (self.range, self.new_text@)
    }
}

pub open spec fn edits_view(v: Seq<TextEdit>) -> Seq<(Range, Seq<char>)> {
    v.map_values(|e: TextEdit| e@)
}

/// The edits of a rename, all in the document `uri`.
pub struct WorkspaceEdit {
    pub uri: String,
    pub edits: Vec<TextEdit>,
}

/// The range of a name that can be renamed, with its current text.
pub struct PrepareRenameResponse {
    pub range: Range,
    pub placeholder: String,
}

/// The range of the `len` bytes of a name that starts at byte `start`, on
/// its line.
pub open spec fn name_range(bs: Seq<u8>, start: int, len: int) -> Range {
    let s = spec_offset_to_position(bs, start);
    Range { start: s, end: Position { line: s.line, character: s.character.wrapping_add(len as u32) } }
}

pub(crate) fn name_range_exec(text: &str, start: u32, len: usize) -> (r: Range)
    requires
        text.spec_bytes().len() <= u32::MAX,
    ensures
        r == name_range(text.spec_bytes(), start as int, len as int),
{
    let s = offset_to_position(text, start);
    Range { start: s, end: Position { line: s.line, character: s.character.wrapping_add(len as u32) } }
}

/// Find the byte offset of the start of the word at the given offset.
pub fn find_word_start(text: &str, offset: usize) -> (r: usize)
    requires
        offset <= text.spec_bytes().len(),
    ensures
        r == ident_run_start(text.spec_bytes(), offset as int),
{
    scan_word_start(text.as_bytes(), offset)
}

/// Find the start offset of the variable name within a `$()` or `${}`
/// reference around `offset`.
pub fn find_var_name_start_in_ref(text: &str, offset: usize) -> (r: Option<usize>)
    requires
        offset <= text.spec_bytes().len() || offset < 2,
    ensures
        match r {
            Some(s) => ref_name_start(text.spec_bytes(), offset - 1) == Some(s as int),
            None => ref_name_start(text.spec_bytes(), offset - 1) is None,
        },
{
    scan_ref_name_start(text.as_bytes(), offset)
}

/// The word at `offset` as `makefile_lossless::word_at_offset` finds it.
pub open spec fn word_at(bs: Seq<u8>, offset: int) -> Option<(int, int)> {
    if is_char_boundary(bs, offset) {
        spec_word_at_offset(bs, offset)
    } else {
        None
    }
}

/// The text at a byte range.
pub open spec fn text_at(bs: Seq<u8>, s: int, e: int) -> Seq<char> {
    decode_utf8(bs.subrange(s, e))
}

/// `offset` lies on the name `w` of a target, written at the start of its
/// rule.
pub open spec fn on_target_definition(rules: Seq<RuleView>, offset: int, w: Seq<char>) -> bool {
    exists|i: int, j: int|
        0 <= i < rules.len() && 0 <= j < rules[i].targets.len() && #[trigger] rules[i].targets[j] == w
            && rules[i].range.start <= offset < rules[i].range.start + utf8(w).len()
}

/// `offset` lies on the name `w` of a variable definition, written at its
/// start.
pub open spec fn on_variable_definition(vars: Seq<VariableDefinitionView>, offset: int, w: Seq<char>) -> bool {
    exists|i: int|
        0 <= i < vars.len() && (#[trigger] vars[i]).name == Some(w) && vars[i].range.start <= offset
            < vars[i].range.start + utf8(w).len()
}

/// What can be renamed at byte `o`: a defined variable referenced around
/// it, a word in the prerequisites, or a target or variable name at its
/// definition; with the byte range of the name and its text.
pub enum RenameSubject {
    Variable(Seq<char>, int),
    Target(Seq<char>, int),
    Nothing,
}

/// The rename subject at byte `o` of the text `text` with bytes `bs`.
pub open spec fn rename_subject(bs: Seq<u8>, text: Seq<char>, m: MakefileView, o: int) -> RenameSubject {
    match lossless_variable_name_at(text, o as usize) {
        Some(v) => if defined_names(m.variables).contains(v) {
            match ref_name_start(bs, o - 1) {
                Some(s) => RenameSubject::Variable(v, s),
                None => RenameSubject::Nothing,
            }
        } else {
            RenameSubject::Nothing
        },
        None => if is_char_boundary(bs, o) && spec_is_in_prerequisites(bs, o) {
            match word_at(bs, o) {
                Some((s, e)) => RenameSubject::Target(text_at(bs, s, e), s),
                None => RenameSubject::Nothing,
            }
        } else {
            match word_at(bs, o) {
                Some((s, e)) => {
                    let w = text_at(bs, s, e);
                    if on_target_definition(m.rules, o, w) {
                        RenameSubject::Target(w, s)
                    } else if on_variable_definition(m.variables, o, w) {
                        RenameSubject::Variable(w, s)
                    } else {
                        RenameSubject::Nothing
                    }
                },
                None => RenameSubject::Nothing,
            }
        },
    }
}

/// The range and text offered for renaming at `position`.
pub open spec fn spec_prepare_rename(bs: Seq<u8>, text: Seq<char>, m: MakefileView, position: Position) -> Option<(Range, Seq<char>)> {
    match spec_position_to_offset(bs, position) {
        None => None,
        Some(o) => match rename_subject(bs, text, m, o) {
            RenameSubject::Variable(v, s) => Some((name_range(bs, s, utf8(v).len() as int), v)),
            RenameSubject::Target(w, s) => Some((name_range(bs, s, utf8(w).len() as int), w)),
            RenameSubject::Nothing => None,
        },
    }
}

/// Is `w` the name of a target at its rule's start, around `offset`?
pub(crate) fn on_target_definition_exec(makefile: &Makefile, offset: usize, w: &str) -> (r: bool)
    ensures
        r == on_target_definition(makefile@.rules, offset as int, w@),
{
    let ghost rules = makefile@.rules;
    let wlen = w.as_bytes().len();
    let mut i: usize = 0;
    while i < makefile.rules.len()
        invariant
            i <= makefile.rules@.len(),
            rules == makefile@.rules,
            wlen == utf8(w@).len(),
            forall|a: int, b: int|
                0 <= a < i && 0 <= b < rules[a].targets.len() && #[trigger] rules[a].targets[b] == w@
                    ==> !(rules[a].range.start <= offset < rules[a].range.start + utf8(w@).len()),
        decreases makefile.rules@.len() - i,
    {
        let rule = &makefile.rules[i];
        assert(rules[i as int] == rule@);
        let start = rule.range.start as usize;
        let here = start <= offset && offset - start < wlen;
        if here && contains_string(&rule.targets, w) {
            proof {
                let j = choose|j: int| 0 <= j < strings_view(rule.targets@).len() && strings_view(rule.targets@)[j] == w@;
                assert(rules[i as int].targets[j] == w@);
            }
            return true;
        }
        proof {
            assert forall|b: int| 0 <= b < rules[i as int].targets.len() && #[trigger] rules[i as int].targets[b] == w@
                implies !(rules[i as int].range.start <= offset < rules[i as int].range.start + utf8(w@).len()) by {
                assert(strings_view(rule.targets@)[b] == w@);
            }
        }
        i += 1;
    }
    false
}

/// Is `w` the name of a variable definition at its start, around `offset`?
pub(crate) fn on_variable_definition_exec(makefile: &Makefile, offset: usize, w: &str) -> (r: bool)
    ensures
        r == on_variable_definition(makefile@.variables, offset as int, w@),
{
    let ghost vars = makefile@.variables;
    let wlen = w.as_bytes().len();
    let mut i: usize = 0;
    while i < makefile.variables.len()
        invariant
            i <= makefile.variables@.len(),
            vars == makefile@.variables,
            wlen == utf8(w@).len(),
            forall|a: int|
                0 <= a < i && (#[trigger] vars[a]).name == Some(w@) ==> !(vars[a].range.start <= offset
                    < vars[a].range.start + utf8(w@).len()),
        decreases makefile.variables@.len() - i,
    {
        let var = &makefile.variables[i];
        assert(vars[i as int] == var@);
        let start = var.range.start as usize;
        let named = match &var.name {
            Some(n) => str_eq(n.as_str(), w),
            None => false,
        };
        if named && start <= offset && offset - start < wlen {
            return true;
        }
        i += 1;
    }
    false
}

/// What can be renamed at `offset`: a reference to a defined variable around
/// it, else a word among the prerequisites, else the name of a target or
/// variable definition under it.
fn find_subject<'a>(makefile: &Makefile, source_text: &'a str, offset: usize, defined: &Vec<String>) -> (r: Option<(&'a str, usize, bool)>)
    requires
        offset <= source_text.spec_bytes().len(),
        strings_view(defined@) == defined_names(makefile@.variables),
    ensures
        match r {
            Some((name, start, is_var)) => if is_var {
                rename_subject(source_text.spec_bytes(), source_text@, makefile@, offset as int)
                    == RenameSubject::Variable(name@, start as int)
            } else {
                rename_subject(source_text.spec_bytes(), source_text@, makefile@, offset as int)
                    == RenameSubject::Target(name@, start as int)
            },
            None => rename_subject(source_text.spec_bytes(), source_text@, makefile@, offset as int)
                == RenameSubject::Nothing,
        },
{
    let ghost bs = source_text.spec_bytes();
    if let Some(var_name) = lossless_variable_at_offset(source_text, offset) {
        if contains_string(defined, var_name) {
            return match find_var_name_start_in_ref(source_text, offset) {
                Some(start) => Some((var_name, start, true)),
                None => None,
            };
        }
        return None;
    }
    if lossless_is_in_prerequisites(source_text, offset) {
        if let Some(word) = lossless_word_at_offset(source_text, offset) {
            let start = find_word_start(source_text, offset);
            proof {
                assert(word@ == text_at(bs, start as int, ident_run_end_of(bs, offset as int)));
            }
            return Some((word, start, false));
        }
        return None;
    }
    if let Some(word) = lossless_word_at_offset(source_text, offset) {
        let start = find_word_start(source_text, offset);
        proof {
            assert(word@ == text_at(bs, start as int, ident_run_end_of(bs, offset as int)));
        }
        if on_target_definition_exec(makefile, offset, word) {
            return Some((word, start, false));
        }
        if on_variable_definition_exec(makefile, offset, word) {
            return Some((word, start, true));
        }
    }
    None
}

/// The end of the word at `offset`.
pub open spec fn ident_run_end_of(bs: Seq<u8>, offset: int) -> int {
    match spec_word_at_offset(bs, offset) {
        Some((s, e)) => e,
        None => offset,
    }
}

/// Check if renaming is possible at the given position and return the
/// current name and its range.
pub fn prepare_rename(makefile: &Makefile, source_text: &str, position: Position) -> (r: Option<PrepareRenameResponse>)
    requires
        source_text.spec_bytes().len() <= u32::MAX,
    ensures
        match r {
            Some(p) => spec_prepare_rename(source_text.spec_bytes(), source_text@, makefile@, position) == Some(
                (p.range, p.placeholder@),
            ),
            None => spec_prepare_rename(source_text.spec_bytes(), source_text@, makefile@, position) is None,
        },
{
    let ghost bs = source_text.spec_bytes();
    let offset = try_position_to_offset(source_text, position)?;
    proof {
        crate::position::lemma_position_to_offset_bounds(bs, position);
    }
    let defined = defined_variable_names(makefile);
    let (name, start, _) = find_subject(makefile, source_text, offset, &defined)?;
    proof {
        lemma_subject_start_bounds(bs, source_text@, makefile@, offset as int);
    }
    let range = name_range_exec(source_text, start as u32, name.as_bytes().len());
    Some(PrepareRenameResponse { range, placeholder: name.to_owned() })
}

/// The start of a rename subject lies within the text.
proof fn lemma_subject_start_bounds(bs: Seq<u8>, text: Seq<char>, m: MakefileView, o: int)
    requires
        0 <= o <= bs.len(),
    ensures
        match rename_subject(bs, text, m, o) {
            RenameSubject::Variable(_, s) => 0 <= s <= bs.len(),
            RenameSubject::Target(_, s) => 0 <= s <= bs.len(),
            RenameSubject::Nothing => true,
        },
{
    crate::goto::lemma_ref_name_start_bounds(bs, o - 1);
    crate::goto::lemma_ident_run_start_bounds(bs, o);
}


/// An edit replacing a name.
pub type EditView = (Range, Seq<char>);

/// `out` is `raw` sorted by start position, keeping the first edit for each
/// start position, as a stable sort by position and the removal of edits
/// with the same range as the one before leave it (the edits of a rename
/// all have the same length, so equal starts mean equal ranges).
pub open spec fn sorted_edits(out: Seq<EditView>, raw: Seq<EditView>) -> bool {
    first_per_key_view::<Position, EditView>(
        out.map_values(|e: EditView| (e.0.start, e)),
        raw.map_values(|e: EditView| (e.0.start, e)),
    )
}

/// The definitions of the variable `old`, renamed.
pub open spec fn variable_def_edits(bs: Seq<u8>, vars: Seq<VariableDefinitionView>, old: Seq<char>, new: Seq<char>) -> Seq<EditView> {
    vars.filter(|v: VariableDefinitionView| v.name == Some(old)).map_values(
        |v: VariableDefinitionView| (name_range(bs, v.range.start as int, utf8(old).len() as int), new),
    )
}

/// The references `$(old` or `${old` (the pattern `pat`) followed by a
/// space, `)` or `}`, renamed.
pub open spec fn reference_edits(bs: Seq<u8>, pat: Seq<u8>, old: Seq<char>, new: Seq<char>) -> Seq<EditView> {
    all_matches(bs, pat, 0).filter(
        |i: int| i + pat.len() < bs.len() && (bs[i + pat.len()] == 0x20 || bs[i + pat.len()] == 0x29 || bs[i
            + pat.len()] == 0x7d),
    ).map_values(|i: int| (name_range(bs, i + 2, utf8(old).len() as int), new))
}

/// The edits renaming the variable `old` to `new`, before sorting: its
/// definitions, then its `$(old)` references, then its `${old}` ones.
pub open spec fn variable_rename_edits(bs: Seq<u8>, vars: Seq<VariableDefinitionView>, old: Seq<char>, new: Seq<char>) -> Seq<EditView> {
    variable_def_edits(bs, vars, old, new) + reference_edits(bs, seq![0x24u8, 0x28u8] + utf8(old), old, new)
        + reference_edits(bs, seq![0x24u8, 0x7bu8] + utf8(old), old, new)
}

/// The whole-word occurrences of `old` among the prerequisites of a rule
/// (after its first `:`, on the same line), renamed.
pub open spec fn prereq_word_edits(bs: Seq<u8>, r: RuleView, old: Seq<char>, new: Seq<char>) -> Seq<EditView> {
    if !range_within(r.range, bs.len() as int) {
        seq![]
    } else {
        let rt = bs.subrange(r.range.start as int, r.range.end as int);
        match first_byte_from(rt, COLON, 0) {
            None => seq![],
            Some(c) => {
                let after = rt.subrange(c + 1, rt.len() as int);
                let pe = match first_byte_from(after, NEWLINE, 0) {
                    Some(e) => e,
                    None => after.len() as int,
                };
                whole_word_matches(after.subrange(0, pe), utf8(old), 0).map_values(
                    |k: int| (name_range(bs, r.range.start + c + 1 + k, utf8(old).len() as int), new),
                )
            },
        }
    }
}

/// The prerequisite word edits of a rule, once for each of its
/// prerequisites named `old`.
pub open spec fn repeated_prereq_edits(bs: Seq<u8>, r: RuleView, ps: Seq<Seq<char>>, old: Seq<char>, new: Seq<char>) -> Seq<EditView>
    decreases ps.len(),
{
    if ps.len() == 0 {
        seq![]
    } else {
        repeated_prereq_edits(bs, r, ps.drop_last(), old, new) + if ps.last() == old {
            prereq_word_edits(bs, r, old, new)
        } else {
            seq![]
        }
    }
}

/// The edits of the targets of a rule named `old`, at the rule's start.
pub open spec fn target_def_edits(bs: Seq<u8>, r: RuleView, old: Seq<char>, new: Seq<char>) -> Seq<EditView> {
    r.targets.filter(|t: Seq<char>| t == old).map_values(
        |t: Seq<char>| (name_range(bs, r.range.start as int, utf8(old).len() as int), new),
    )
}

/// The edits of one rule: its targets named `old` at the rule's start, then
/// its prerequisites.
pub open spec fn rule_rename_edits(bs: Seq<u8>, r: RuleView, old: Seq<char>, new: Seq<char>) -> Seq<EditView> {
    target_def_edits(bs, r, old, new) + repeated_prereq_edits(bs, r, r.prerequisites, old, new)
}

/// The edits renaming the target `old` to `new`, before sorting.
pub open spec fn target_rename_edits(bs: Seq<u8>, rules: Seq<RuleView>, old: Seq<char>, new: Seq<char>) -> Seq<EditView>
    decreases rules.len(),
{
    if rules.len() == 0 {
        seq![]
    } else {
        target_rename_edits(bs, rules.drop_last(), old, new) + rule_rename_edits(bs, rules.last(), old, new)
    }
}

/// The result of a rename at `position`: `None` when nothing can be renamed
/// there, else the sorted edits of the variable or target found there.
pub open spec fn rename_result(
    bs: Seq<u8>,
    text: Seq<char>,
    m: MakefileView,
    position: Position,
    new: Seq<char>,
    r: Option<Seq<EditView>>,
) -> bool {
    match spec_position_to_offset(bs, position) {
        None => r is None,
        Some(o) => match rename_subject(bs, text, m, o) {
            RenameSubject::Variable(v, _) => r matches Some(out) && sorted_edits(out, variable_rename_edits(bs, m.variables, v, new)),
            RenameSubject::Target(w, _) => r matches Some(out) && sorted_edits(out, target_rename_edits(bs, m.rules, w, new)),
            RenameSubject::Nothing => r is None,
        },
    }
}

/// The edits keyed by their start.
pub open spec fn keyed_edits(v: Seq<EditView>) -> Seq<(Position, EditView)> {
    v.map_values(|e: EditView| (e.0.start, e))
}

/// Appends the edit of `len` bytes at `start`, keyed by its start.
pub(crate) fn push_edit(out: &mut Vec<(Position, TextEdit)>, text: &str, start: u32, len: usize, new_name: &str)
    requires
        text.spec_bytes().len() <= u32::MAX,
    ensures
        entries_view(final(out)@) == entries_view(old(out)@) + seq![
            (
                name_range(text.spec_bytes(), start as int, len as int).start,
                (name_range(text.spec_bytes(), start as int, len as int), new_name@),
            ),
        ],
{
    let ghost before = entries_view(out@);
    let range = name_range_exec(text, start, len);
    let edit = TextEdit { range, new_text: new_name.to_owned() };
    let entry = (range.start, edit);
    out.push(entry);
    assert(entries_view(out@) =~= before + seq![(entry.0@, entry.1@)]);
}

/// Sort edits by start and keep the first for each start.
pub(crate) fn sort_edits(raw: Vec<(Position, TextEdit)>, Ghost(raw_view): Ghost<Seq<EditView>>) -> (r: Vec<TextEdit>)
    requires
        entries_view(raw@) == keyed_edits(raw_view),
    ensures
        sorted_edits(edits_view(r@), raw_view),
{
    let ghost rv = raw@;
    let sorted = first_entries_by_key(raw);
    proof {
        lemma_first_per_key_view(sorted@, rv);
    }
    let ghost sv = entries_view(sorted@);
    let mut rest = sorted;
    let mut out: Vec<TextEdit> = Vec::new();
    let mut i: usize = 0;
    let n = rest.len();
    while rest.len() > 0
        invariant
            i + rest@.len() == sv.len(),
            n == sv.len(),
            entries_view(rest@) == sv.subrange(i as int, sv.len() as int),
            edits_view(out@) == sv.subrange(0, i as int).map_values(|e: (Position, EditView)| e.1),
        decreases rest@.len(),
    {
        let ghost before = edits_view(out@);
        let ghost old_rest = rest@;
        let entry = rest.remove(0);
        assert(rest@ =~= old_rest.subrange(1, old_rest.len() as int));
        assert(entries_view(old_rest)[0] == (entry.0@, entry.1@));
        assert(sv[i as int] == entries_view(old_rest)[0]);
        assert forall|k: int| 0 <= k < rest@.len() implies #[trigger] entries_view(rest@)[k] == sv[i + 1 + k] by {
            assert(rest@[k] == old_rest[k + 1]);
            assert(entries_view(old_rest)[k + 1] == sv[i + 1 + k]);
        }
        assert(entries_view(rest@) =~= sv.subrange(i + 1, sv.len() as int));
        let edit = entry.1;
        out.push(edit);
        assert(edits_view(out@) =~= before + seq![edit@]);
        assert(sv.subrange(0, i + 1).map_values(|e: (Position, EditView)| e.1) =~= sv.subrange(0, i as int).map_values(
            |e: (Position, EditView)| e.1,
        ) + seq![sv[i as int].1]);
        i += 1;
    }
    assert(sv.subrange(0, i as int) =~= sv);
    proof {
        let ov = edits_view(out@);
        let iv = entries_view(rv);
        assert(ov == sv.map_values(|e: (Position, EditView)| e.1));
        assert(first_per_key_view::<Position, EditView>(sv, iv));
        assert forall|k: int| 0 <= k < sv.len() implies #[trigger] sv[k] == (ov[k].0.start, ov[k]) by {
            assert(ov[k] == sv[k].1);
            let j = crate::sorted::first_key_index(iv, sv[k].0, 0);
            assert(0 <= k < sv.len());
            assert(j < iv.len() && iv[j] == sv[k]);
            assert(iv == keyed_edits(raw_view));
            crate::sorted::lemma_first_key_index_bounds(iv, sv[k].0, 0);
            assert(keyed_edits(raw_view)[j] == (raw_view[j].0.start, raw_view[j]));
        }
        assert(keyed_edits(ov) =~= sv);
    }
    out
}


/// `$` and `open` followed by the bytes of `name`.
pub(crate) fn reference_pattern(open: u8, name: &str) -> (r: Vec<u8>)
    ensures
        r@ == seq![0x24u8, open] + utf8(name@),
{
    let bs = name.as_bytes();
    let mut out: Vec<u8> = Vec::new();
    out.push(0x24);
    out.push(open);
    let mut i: usize = 0;
    while i < bs.len()
        invariant
            i <= bs@.len(),
            bs@ == utf8(name@),
            out@ == seq![0x24u8, open] + bs@.subrange(0, i as int),
        decreases bs@.len() - i,
    {
        out.push(bs[i]);
        assert(bs@.subrange(0, i + 1) =~= bs@.subrange(0, i as int) + seq![bs@[i as int]]);
        i += 1;
    }
    assert(bs@.subrange(0, i as int) =~= bs@);
    out
}

/// Appends the edits of the references matching `pat`.
pub(crate) fn push_reference_edits(
    out: &mut Vec<(Position, TextEdit)>,
    text: &str,
    pat: &Vec<u8>,
    old_name: &str,
    new_name: &str,
    Ghost(raw): Ghost<Seq<EditView>>,
) -> (r: Ghost<Seq<EditView>>)
    requires
        text.spec_bytes().len() <= u32::MAX,
        entries_view(old(out)@) == keyed_edits(raw),
    ensures
        r@ == raw + reference_edits(text.spec_bytes(), pat@, old_name@, new_name@),
        entries_view(final(out)@) == keyed_edits(r@),
{
    let bs = text.as_bytes();
    let ghost b = bs@;
    let matches = find_all_in(bs, pat.as_slice());
    let ghost m = all_matches(b, pat@, 0);
    proof {
        lemma_all_matches_bounds(b, pat@, 0);
    }
    let ghost f = |i: int| i + pat@.len() < b.len() && (b[i + pat@.len()] == 0x20 || b[i + pat@.len()] == 0x29 || b[i
        + pat@.len()] == 0x7d);
    let ghost g = |i: int| (name_range(b, i + 2, utf8(old_name@).len() as int), new_name@);
    let ghost mut acc = raw;
    let mut k: usize = 0;
    while k < matches.len()
        invariant
            k <= matches@.len(),
            b == bs@,
            b == text.spec_bytes(),
            b.len() <= u32::MAX,
            offsets_view(matches@) == m,
            m == all_matches(b, pat@, 0),
            forall|j: int| 0 <= j < m.len() ==> 0 <= #[trigger] m[j] && m[j] + pat@.len() <= b.len(),
            f == (|i: int| i + pat@.len() < b.len() && (b[i + pat@.len()] == 0x20 || b[i + pat@.len()] == 0x29
                || b[i + pat@.len()] == 0x7d)),
            g == (|i: int| (name_range(b, i + 2, utf8(old_name@).len() as int), new_name@)),
            acc == raw + m.subrange(0, k as int).filter(f).map_values(g),
            entries_view(out@) == keyed_edits(acc),
        decreases matches@.len() - k,
    {
        let idx = matches[k];
        assert(offsets_view(matches@)[k as int] == idx as int);
        let ghost a = m.subrange(0, k as int).filter(f);
        assert(m.subrange(0, k + 1).drop_last() =~= m.subrange(0, k as int));
        reveal(Seq::filter);
        let after = idx + pat.len();
        if after < bs.len() {
            let next = bs[after];
            if next == 0x20 || next == 0x29 || next == 0x7d {
                assert(f(idx as int));
                assert(idx + 2 <= b.len());
                push_edit(out, text, (idx + 2) as u32, old_name.as_bytes().len(), new_name);
                proof {
                    let e = g(idx as int);
                    assert(m.subrange(0, k + 1).filter(f) =~= a.push(idx as int));
                    assert(a.push(idx as int).map_values(g) =~= a.map_values(g).push(e));
                    assert(keyed_edits(acc.push(e)) =~= keyed_edits(acc) + seq![(e.0.start, e)]);
                    assert(raw + a.map_values(g).push(e) =~= (raw + a.map_values(g)).push(e));
                    acc = acc.push(e);
                }
            } else {
                assert(!f(idx as int));
                assert(m.subrange(0, k + 1).filter(f) =~= a);
            }
        } else {
            assert(!f(idx as int));
            assert(m.subrange(0, k + 1).filter(f) =~= a);
        }
        k += 1;
    }
    assert(m.subrange(0, k as int) =~= m);
    Ghost(acc)
}

/// Appends the edits of the definitions of the variable `old_name`.
pub(crate) fn push_variable_def_edits(
    out: &mut Vec<(Position, TextEdit)>,
    text: &str,
    makefile: &Makefile,
    old_name: &str,
    new_name: &str,
    Ghost(raw): Ghost<Seq<EditView>>,
) -> (r: Ghost<Seq<EditView>>)
    requires
        text.spec_bytes().len() <= u32::MAX,
        entries_view(old(out)@) == keyed_edits(raw),
    ensures
        r@ == raw + variable_def_edits(text.spec_bytes(), makefile@.variables, old_name@, new_name@),
        entries_view(final(out)@) == keyed_edits(r@),
{
    let ghost b = text.spec_bytes();
    let ghost vars = makefile@.variables;
    let ghost f = |v: VariableDefinitionView| v.name == Some(old_name@);
    let ghost g = |v: VariableDefinitionView| (name_range(b, v.range.start as int, utf8(old_name@).len() as int), new_name@);
    let ghost mut acc: Seq<EditView> = raw;
    assert(raw + seq![] =~= raw);
    let mut i: usize = 0;
    while i < makefile.variables.len()
        invariant
            i <= makefile.variables@.len(),
            b == text.spec_bytes(),
            b.len() <= u32::MAX,
            vars == makefile@.variables,
            f == (|v: VariableDefinitionView| v.name == Some(old_name@)),
            g == (|v: VariableDefinitionView| (name_range(b, v.range.start as int, utf8(old_name@).len() as int), new_name@)),
            acc == raw + vars.subrange(0, i as int).filter(f).map_values(g),
            entries_view(out@) == keyed_edits(acc),
        decreases makefile.variables@.len() - i,
    {
        let var = &makefile.variables[i];
        assert(vars[i as int] == var@);
        let ghost a = vars.subrange(0, i as int).filter(f);
        assert(vars.subrange(0, i + 1).drop_last() =~= vars.subrange(0, i as int));
        reveal(Seq::filter);
        let named = match &var.name {
            Some(n) => str_eq(n.as_str(), old_name),
            None => false,
        };
        if named {
            push_edit(out, text, var.range.start, old_name.as_bytes().len(), new_name);
            proof {
                let e = g(var@);
                assert(vars.subrange(0, i + 1).filter(f) =~= a.push(var@));
                assert(a.push(var@).map_values(g) =~= a.map_values(g).push(e));
                assert(keyed_edits(acc.push(e)) =~= keyed_edits(acc) + seq![(e.0.start, e)]);
                assert(raw + a.map_values(g).push(e) =~= (raw + a.map_values(g)).push(e));
                acc = acc.push(e);
            }
        } else {
            assert(vars.subrange(0, i + 1).filter(f) =~= a);
        }
        i += 1;
    }
    assert(vars.subrange(0, i as int) =~= vars);
    Ghost(acc)
}

/// Rename all occurrences of a variable.
pub fn rename_variable(makefile: &Makefile, source_text: &str, old_name: &str, new_name: &str) -> (r: Vec<TextEdit>)
    requires
        source_text.spec_bytes().len() <= u32::MAX,
    ensures
        sorted_edits(edits_view(r@), variable_rename_edits(source_text.spec_bytes(), makefile@.variables, old_name@, new_name@)),
{
    let mut raw: Vec<(Position, TextEdit)> = Vec::new();
    let ghost empty: Seq<EditView> = seq![];
    assert(entries_view(raw@) =~= keyed_edits(empty));
    let Ghost(acc) = push_variable_def_edits(&mut raw, source_text, makefile, old_name, new_name, Ghost(empty));
    assert(acc =~= variable_def_edits(source_text.spec_bytes(), makefile@.variables, old_name@, new_name@));
    let paren = reference_pattern(0x28, old_name);
    let Ghost(acc2) = push_reference_edits(&mut raw, source_text, &paren, old_name, new_name, Ghost(acc));
    let brace = reference_pattern(0x7b, old_name);
    let Ghost(acc3) = push_reference_edits(&mut raw, source_text, &brace, old_name, new_name, Ghost(acc2));
    sort_edits(raw, Ghost(acc3))
}

/// Appends the prerequisite word edits of a rule.
pub(crate) fn push_prereq_word_edits(
    out: &mut Vec<(Position, TextEdit)>,
    text: &str,
    rule: &crate::makefile::Rule,
    old_name: &str,
    new_name: &str,
    Ghost(raw): Ghost<Seq<EditView>>,
) -> (r: Ghost<Seq<EditView>>)
    requires
        text.spec_bytes().len() <= u32::MAX,
        entries_view(old(out)@) == keyed_edits(raw),
    ensures
        r@ == raw + prereq_word_edits(text.spec_bytes(), rule@, old_name@, new_name@),
        entries_view(final(out)@) == keyed_edits(r@),
{
    let bytes = text.as_bytes();
    let ghost b = bytes@;
    let rs = rule.range.start as usize;
    let re = rule.range.end as usize;
    if !(rs <= re && re <= bytes.len()) {
        assert(raw + seq![] =~= raw);
        return Ghost(raw);
    }
    let rule_text = vstd::slice::slice_subrange(bytes, rs, re);
    let colon = match first_byte_exec(rule_text, COLON) {
        Some(c) => c,
        None => {
            assert(raw + seq![] =~= raw);
            return Ghost(raw);
        },
    };
    proof {
        lemma_first_byte_bounds(rule_text@, COLON, 0);
    }
    let after = vstd::slice::slice_subrange(rule_text, colon + 1, rule_text.len());
    proof {
        lemma_first_byte_bounds(after@, NEWLINE, 0);
    }
    let pe = match first_byte_exec(after, NEWLINE) {
        Some(e) => e,
        None => after.len(),
    };
    let section = vstd::slice::slice_subrange(after, 0, pe);
    let base = rs + colon + 1;
    let matches = find_words_in(section, old_name.as_bytes());
    let ghost m = whole_word_matches(section@, utf8(old_name@), 0);
    proof {
        lemma_whole_word_matches_bounds(section@, utf8(old_name@), 0);
    }
    let ghost g = |k: int| (name_range(b, base + k, utf8(old_name@).len() as int), new_name@);
    let ghost mut acc = raw;
    let mut k: usize = 0;
    while k < matches.len()
        invariant
            k <= matches@.len(),
            b == text.spec_bytes(),
            b.len() <= u32::MAX,
            base + section@.len() <= b.len(),
            offsets_view(matches@) == m,
            forall|j: int| 0 <= j < m.len() ==> 0 <= #[trigger] m[j] && m[j] + utf8(old_name@).len() <= section@.len(),
            g == (|k: int| (name_range(b, base + k, utf8(old_name@).len() as int), new_name@)),
            acc == raw + m.subrange(0, k as int).map_values(g),
            entries_view(out@) == keyed_edits(acc),
        decreases matches@.len() - k,
    {
        let idx = matches[k];
        assert(offsets_view(matches@)[k as int] == idx as int);
        push_edit(out, text, (base + idx) as u32, old_name.as_bytes().len(), new_name);
        proof {
            let e = g(idx as int);
            assert(m.subrange(0, k + 1).map_values(g) =~= m.subrange(0, k as int).map_values(g).push(e));
            assert(keyed_edits(acc.push(e)) =~= keyed_edits(acc) + seq![(e.0.start, e)]);
            assert(raw + m.subrange(0, k as int).map_values(g).push(e) =~= (raw + m.subrange(0, k as int).map_values(g)).push(e));
            acc = acc.push(e);
        }
        k += 1;
    }
    assert(m.subrange(0, k as int) =~= m);
    proof {
        assert(m.map_values(g) =~= prereq_word_edits(b, rule@, old_name@, new_name@));
    }
    Ghost(acc)
}

/// Appends the edits of the targets of `rule` named `old_name`.
pub(crate) fn push_target_def_edits(
    out: &mut Vec<(Position, TextEdit)>,
    text: &str,
    rule: &crate::makefile::Rule,
    old_name: &str,
    new_name: &str,
    Ghost(raw): Ghost<Seq<EditView>>,
) -> (r: Ghost<Seq<EditView>>)
    requires
        text.spec_bytes().len() <= u32::MAX,
        entries_view(old(out)@) == keyed_edits(raw),
    ensures
        r@ == raw + target_def_edits(text.spec_bytes(), rule@, old_name@, new_name@),
        entries_view(final(out)@) == keyed_edits(r@),
{
    let ghost b = text.spec_bytes();
    let ghost ts = strings_view(rule.targets@);
    let ghost f = |t: Seq<char>| t == old_name@;
    let ghost g = |t: Seq<char>| (name_range(b, rule.range.start as int, utf8(old_name@).len() as int), new_name@);
    let ghost mut acc = raw;
    assert(raw + seq![] =~= raw);
    let mut k: usize = 0;
    while k < rule.targets.len()
        invariant
            k <= rule.targets@.len(),
            b == text.spec_bytes(),
            b.len() <= u32::MAX,
            ts == strings_view(rule.targets@),
            f == (|t: Seq<char>| t == old_name@),
            g == (|t: Seq<char>| (name_range(b, rule.range.start as int, utf8(old_name@).len() as int), new_name@)),
            acc == raw + ts.subrange(0, k as int).filter(f).map_values(g),
            entries_view(out@) == keyed_edits(acc),
        decreases rule.targets@.len() - k,
    {
        let t = &rule.targets[k];
        assert(ts[k as int] == t@);
        let ghost a = ts.subrange(0, k as int).filter(f);
        assert(ts.subrange(0, k + 1).drop_last() =~= ts.subrange(0, k as int));
        reveal(Seq::filter);
        if str_eq(t.as_str(), old_name) {
            push_edit(out, text, rule.range.start, old_name.as_bytes().len(), new_name);
            proof {
                let e = g(t@);
                assert(ts.subrange(0, k + 1).filter(f) =~= a.push(t@));
                assert(a.push(t@).map_values(g) =~= a.map_values(g).push(e));
                assert(keyed_edits(acc.push(e)) =~= keyed_edits(acc) + seq![(e.0.start, e)]);
                assert(raw + a.map_values(g).push(e) =~= (raw + a.map_values(g)).push(e));
                acc = acc.push(e);
            }
        } else {
            assert(ts.subrange(0, k + 1).filter(f) =~= a);
        }
        k += 1;
    }
    assert(ts.subrange(0, k as int) =~= ts);
    Ghost(acc)
}

/// Appends the prerequisite word edits of `rule` once for each of its
/// prerequisites named `old_name`.
pub(crate) fn push_repeated_prereq_edits(
    out: &mut Vec<(Position, TextEdit)>,
    text: &str,
    rule: &crate::makefile::Rule,
    old_name: &str,
    new_name: &str,
    Ghost(raw): Ghost<Seq<EditView>>,
) -> (r: Ghost<Seq<EditView>>)
    requires
        text.spec_bytes().len() <= u32::MAX,
        entries_view(old(out)@) == keyed_edits(raw),
    ensures
        r@ == raw + repeated_prereq_edits(text.spec_bytes(), rule@, rule@.prerequisites, old_name@, new_name@),
        entries_view(final(out)@) == keyed_edits(r@),
{
    let ghost b = text.spec_bytes();
    let ghost ps = strings_view(rule.prerequisites@);
    let ghost mut acc = raw;
    assert(ps.subrange(0, 0) =~= Seq::<Seq<char>>::empty());
    assert(raw + seq![] =~= raw);
    let mut j: usize = 0;
    while j < rule.prerequisites.len()
        invariant
            j <= rule.prerequisites@.len(),
            b == text.spec_bytes(),
            b.len() <= u32::MAX,
            ps == strings_view(rule.prerequisites@),
            acc == raw + repeated_prereq_edits(b, rule@, ps.subrange(0, j as int), old_name@, new_name@),
            entries_view(out@) == keyed_edits(acc),
        decreases rule.prerequisites@.len() - j,
    {
        let p = &rule.prerequisites[j];
        assert(ps[j as int] == p@);
        assert(ps.subrange(0, j + 1).drop_last() =~= ps.subrange(0, j as int));
        if str_eq(p.as_str(), old_name) {
            let Ghost(next) = push_prereq_word_edits(out, text, rule, old_name, new_name, Ghost(acc));
            proof {
                acc = next;
            }
        } else {
            assert(acc + seq![] =~= acc);
        }
        assert(acc =~= raw + repeated_prereq_edits(b, rule@, ps.subrange(0, j + 1), old_name@, new_name@));
        j += 1;
    }
    assert(ps.subrange(0, j as int) =~= ps);
    Ghost(acc)
}

/// Rename all occurrences of a target.
pub fn rename_target(makefile: &Makefile, source_text: &str, old_name: &str, new_name: &str) -> (r: Vec<TextEdit>)
    requires
        source_text.spec_bytes().len() <= u32::MAX,
    ensures
        sorted_edits(edits_view(r@), target_rename_edits(source_text.spec_bytes(), makefile@.rules, old_name@, new_name@)),
{
    let ghost b = source_text.spec_bytes();
    let ghost rules = makefile@.rules;
    let mut raw: Vec<(Position, TextEdit)> = Vec::new();
    let ghost mut acc: Seq<EditView> = seq![];
    assert(entries_view(raw@) =~= keyed_edits(acc));
    let mut i: usize = 0;
    while i < makefile.rules.len()
        invariant
            i <= makefile.rules@.len(),
            b == source_text.spec_bytes(),
            b.len() <= u32::MAX,
            rules == makefile@.rules,
            acc == target_rename_edits(b, rules.subrange(0, i as int), old_name@, new_name@),
            entries_view(raw@) == keyed_edits(acc),
        decreases makefile.rules@.len() - i,
    {
        let rule = &makefile.rules[i];
        assert(rules[i as int] == rule@);
        assert(rules.subrange(0, i + 1).drop_last() =~= rules.subrange(0, i as int));
        let Ghost(mid) = push_target_def_edits(&mut raw, source_text, rule, old_name, new_name, Ghost(acc));
        let Ghost(next) = push_repeated_prereq_edits(&mut raw, source_text, rule, old_name, new_name, Ghost(mid));
        proof {
            acc = next;
        }
        assert(acc =~= target_rename_edits(b, rules.subrange(0, i + 1), old_name@, new_name@));
        i += 1;
    }
    assert(rules.subrange(0, i as int) =~= rules);
    sort_edits(raw, Ghost(acc))
}

/// Perform a rename of the symbol at the given position.
pub fn rename(makefile: &Makefile, source_text: &str, position: Position, new_name: &str, uri: &str) -> (r: Option<WorkspaceEdit>)
    requires
        source_text.spec_bytes().len() <= u32::MAX,
    ensures
        rename_result(
            source_text.spec_bytes(),
            source_text@,
            makefile@,
            position,
            new_name@,
            match r {
                Some(w) => Some(edits_view(w.edits@)),
                None => None,
            },
        ),
        r matches Some(w) ==> w.uri@ == uri@,
{
    let offset = try_position_to_offset(source_text, position)?;
    proof {
        crate::position::lemma_position_to_offset_bounds(source_text.spec_bytes(), position);
    }
    let defined = defined_variable_names(makefile);
    let (name, _, is_var) = find_subject(makefile, source_text, offset, &defined)?;
    let edits = if is_var {
        rename_variable(makefile, source_text, name, new_name)
    } else {
        rename_target(makefile, source_text, name, new_name)
    };
    Some(WorkspaceEdit { uri: uri.to_owned(), edits })
}

/// Every edit of the variable rename carries the new name.
proof fn lemma_variable_edits_text(bs: Seq<u8>, vars: Seq<VariableDefinitionView>, old: Seq<char>, new: Seq<char>)
    ensures
        forall|i: int|
            0 <= i < variable_rename_edits(bs, vars, old, new).len() ==> (#[trigger] variable_rename_edits(
                bs,
                vars,
                old,
                new,
            )[i]).1 == new,
{
}

/// Every prerequisite edit carries the new name.
proof fn lemma_repeated_prereq_text(bs: Seq<u8>, r: RuleView, ps: Seq<Seq<char>>, old: Seq<char>, new: Seq<char>)
    ensures
        forall|i: int|
            0 <= i < repeated_prereq_edits(bs, r, ps, old, new).len() ==> (#[trigger] repeated_prereq_edits(
                bs,
                r,
                ps,
                old,
                new,
            )[i]).1 == new,
    decreases ps.len(),
{
    if ps.len() > 0 {
        lemma_repeated_prereq_text(bs, r, ps.drop_last(), old, new);
        let prev = repeated_prereq_edits(bs, r, ps.drop_last(), old, new);
        let words = prereq_word_edits(bs, r, old, new);
        assert forall|i: int| 0 <= i < words.len() implies (#[trigger] words[i]).1 == new by {
            if range_within(r.range, bs.len() as int) {
                let rt = bs.subrange(r.range.start as int, r.range.end as int);
                if let Some(c) = first_byte_from(rt, COLON, 0) {
                    let after = rt.subrange(c + 1, rt.len() as int);
                    let pe = match first_byte_from(after, NEWLINE, 0) {
                        Some(e) => e,
                        None => after.len() as int,
                    };
                    let ms = whole_word_matches(after.subrange(0, pe), utf8(old), 0);
                    assert(words[i] == (name_range(bs, r.range.start + c + 1 + ms[i], utf8(old).len() as int), new));
                }
            }
        }
        assert forall|i: int| 0 <= i < repeated_prereq_edits(bs, r, ps, old, new).len() implies (
        #[trigger] repeated_prereq_edits(bs, r, ps, old, new)[i]).1 == new by {
            if i < prev.len() {
                assert(repeated_prereq_edits(bs, r, ps, old, new)[i] == prev[i]);
            } else {
                assert(ps.last() == old);
                assert(repeated_prereq_edits(bs, r, ps, old, new)[i] == words[i - prev.len()]);
            }
        }
    }
}

/// Every edit of the target rename carries the new name.
proof fn lemma_target_edits_text(bs: Seq<u8>, rules: Seq<RuleView>, old: Seq<char>, new: Seq<char>)
    ensures
        forall|i: int|
            0 <= i < target_rename_edits(bs, rules, old, new).len() ==> (#[trigger] target_rename_edits(
                bs,
                rules,
                old,
                new,
            )[i]).1 == new,
    decreases rules.len(),
{
    if rules.len() > 0 {
        let r = rules.last();
        lemma_target_edits_text(bs, rules.drop_last(), old, new);
        lemma_repeated_prereq_text(bs, r, r.prerequisites, old, new);
        let prev = target_rename_edits(bs, rules.drop_last(), old, new);
        let defs = target_def_edits(bs, r, old, new);
        let pre = repeated_prereq_edits(bs, r, r.prerequisites, old, new);
        assert forall|i: int| 0 <= i < target_rename_edits(bs, rules, old, new).len() implies (#[trigger] target_rename_edits(
            bs,
            rules,
            old,
            new,
        )[i]).1 == new by {
            assert(target_rename_edits(bs, rules, old, new) == prev + (defs + pre));
            if i < prev.len() {
                assert(prev[i].1 == new);
            } else if i < prev.len() + defs.len() {
                assert(defs[i - prev.len()].1 == new);
            } else {
                assert(pre[i - prev.len() - defs.len()].1 == new);
            }
        }
    }
}

/// The edits of a rename are ordered by their start, no two starting at
/// the same position, and every one of them writes the new name.
pub proof fn lemma_rename_edits_ordered(
    bs: Seq<u8>,
    text: Seq<char>,
    m: MakefileView,
    position: Position,
    new: Seq<char>,
    out: Seq<EditView>,
)
    requires
        rename_result(bs, text, m, position, new, Some(out)),
    ensures
        forall|i: int, j: int|
            0 <= i < j < out.len() ==> <Position as crate::sorted::OrderedKey>::key_lt(
                #[trigger] out[i].0.start,
                #[trigger] out[j].0.start,
            ),
        forall|i: int| 0 <= i < out.len() ==> (#[trigger] out[i]).1 == new,
{
    let o = spec_position_to_offset(bs, position).unwrap();
    let raw = match rename_subject(bs, text, m, o) {
        RenameSubject::Variable(v, _) => {
            lemma_variable_edits_text(bs, m.variables, v, new);
            variable_rename_edits(bs, m.variables, v, new)
        },
        RenameSubject::Target(w, _) => {
            lemma_target_edits_text(bs, m.rules, w, new);
            target_rename_edits(bs, m.rules, w, new)
        },
        RenameSubject::Nothing => seq![],
    };
    let ko = keyed_edits(out);
    let kr = keyed_edits(raw);
    assert(sorted_edits(out, raw));
    assert forall|i: int, j: int| 0 <= i < j < out.len() implies <Position as crate::sorted::OrderedKey>::key_lt(
        #[trigger] out[i].0.start,
        #[trigger] out[j].0.start,
    ) by {
        assert(ko[i].0 == out[i].0.start && ko[j].0 == out[j].0.start);
    }
    assert forall|i: int| 0 <= i < out.len() implies (#[trigger] out[i]).1 == new by {
        assert(ko[i] == (out[i].0.start, out[i]));
        let k = crate::sorted::first_key_index(kr, ko[i].0, 0);
        crate::sorted::lemma_first_key_index_bounds(kr, ko[i].0, 0);
        assert(kr[k] == ko[i]);
        assert(kr[k] == (raw[k].0.start, raw[k]));
        assert(raw[k].1 == new);
    }
}

} // verus!
