//! Editing of open documents: incremental text changes, lines as
//! `str::lines` splits them, and the tab inserted after a rule header.

use vstd::prelude::*;
use vstd::string::StringSliceAdditionalSpecFns;
use vstd::utf8::*;

use crate::position::{
    lemma_line_start_beyond, lemma_line_start_next, lemma_position_offset_boundary, line_start,
    spec_position_to_offset, try_lsp_range_to_text_range, Position, Range, NEWLINE,
};
use crate::rename::TextEdit;
use crate::scip::{first_byte_exec, first_byte_from, lemma_first_byte_bounds};
use crate::strs::{bytes_contain, push_str, substr, utf8};

verus! {

broadcast use {vstd::utf8::encode_utf8_decode_utf8, vstd::utf8::encode_utf8_valid_utf8};

/// A change of a document: the text replacing `range`, or the whole
/// document when there is no range.
pub struct ContentChange {
    pub range: Option<Range>,
    pub text: String,
}

/// The bytes of `bs` after the change `c`: a range that does not lie in
/// the text leaves it unchanged.
pub open spec fn apply_change(bs: Seq<u8>, range: Option<Range>, new_text: Seq<char>) -> Seq<u8> {
    match range {
        None => utf8(new_text),
        Some(r) => match (spec_position_to_offset(bs, r.start), spec_position_to_offset(bs, r.end)) {
            (Some(s), Some(e)) => bs.subrange(0, s) + utf8(new_text) + bs.subrange(e, bs.len() as int),
            _ => bs,
        },
    }
}

/// The bytes after the first `n` changes, applied in order.
pub open spec fn apply_changes(bs: Seq<u8>, changes: Seq<ContentChange>, n: int) -> Seq<u8>
    decreases n,
{
    if n <= 0 || n > changes.len() {
        bs
    } else {
        let before = apply_changes(bs, changes, n - 1);
        apply_change(before, changes[n - 1].range, changes[n - 1].text@)
    }
}

/// Each ranged change, where both its ends lie in the text it applies to,
/// does not end before it starts (a reversed range panics).
pub open spec fn changes_well_ordered(bs: Seq<u8>, changes: Seq<ContentChange>) -> bool {
    forall|i: int|
        0 <= i < changes.len() ==> match #[trigger] changes[i].range {
            Some(r) => (
                spec_position_to_offset(apply_changes(bs, changes, i), r.start),
                spec_position_to_offset(apply_changes(bs, changes, i), r.end),
            ) matches (Some(s), Some(e)) ==> s <= e,
            None => true,
        }
}

/// `cur` with the bytes `start..end` replaced by `new_text`.
fn replace_range(cur: &str, start: usize, end: usize, new_text: &str) -> (r: String)
    requires
        start <= end <= cur.spec_bytes().len(),
        is_char_boundary(cur.spec_bytes(), start as int),
        is_char_boundary(cur.spec_bytes(), end as int),
    ensures
        utf8(r@) == cur.spec_bytes().subrange(0, start as int) + utf8(new_text@) + cur.spec_bytes().subrange(
            end as int,
            cur.spec_bytes().len() as int,
        ),
{
    proof {
        is_char_boundary_start_end_of_seq(cur.spec_bytes());
    }
    let head = substr(cur, 0, start);
    let tail = substr(cur, end, cur.as_bytes().len());
    let mut next = String::new();
    push_str(&mut next, head);
    push_str(&mut next, new_text);
    push_str(&mut next, tail);
    proof {
        assert(next@ =~= head@ + new_text@ + tail@);
        crate::strs::lemma_utf8_append(head@, new_text@);
        crate::strs::lemma_utf8_append(head@ + new_text@, tail@);
    }
    next
}

/// Does the change, applied to `text`, not end before it starts? Where it
/// does, applying it panics.
pub fn change_in_order(text: &str, change: &ContentChange) -> (r: bool)
    ensures
        r == match change.range {
            Some(rg) => (spec_position_to_offset(utf8(text@), rg.start), spec_position_to_offset(utf8(text@), rg.end))
                matches (Some(s), Some(e)) ==> s <= e,
            None => true,
        },
{
    match &change.range {
        Some(rg) => match (crate::position::try_position_to_offset(text, rg.start), crate::position::try_position_to_offset(text, rg.end)) {
            (Some(s), Some(e)) => s <= e,
            _ => true,
        },
        None => true,
    }
}

/// Apply the content changes of a `didChange` notification to `text`, in
/// order.
pub fn apply_content_changes(text: &str, changes: &Vec<ContentChange>) -> (r: String)
    requires
        changes_well_ordered(utf8(text@), changes@),
    ensures
        utf8(r@) == apply_changes(utf8(text@), changes@, changes@.len() as int),
{
    let ghost b0 = utf8(text@);
    let mut current = String::new();
    push_str(&mut current, text);
    let mut i: usize = 0;
    while i < changes.len()
        invariant
            i <= changes@.len(),
            b0 == utf8(text@),
            changes_well_ordered(b0, changes@),
            utf8(current@) == apply_changes(b0, changes@, i as int),
        decreases changes@.len() - i,
    {
        let change = &changes[i];
        let ghost cb = utf8(current@);
        match &change.range {
            Some(range) => {
                assert(match changes@[i as int].range {
                    Some(r) => (
                        spec_position_to_offset(apply_changes(b0, changes@, i as int), r.start),
                        spec_position_to_offset(apply_changes(b0, changes@, i as int), r.end),
                    ) matches (Some(s), Some(e)) ==> s <= e,
                    None => true,
                });
                let cur = current.as_str();
                assert(cur.spec_bytes() == cb);
                if let Some(tr) = try_lsp_range_to_text_range(cur, range) {
                    proof {
                        lemma_position_offset_boundary(cb, range.start);
                        lemma_position_offset_boundary(cb, range.end);
                        crate::position::lemma_position_to_offset_bounds(cb, range.end);
                    }
                    let next = replace_range(cur, tr.start as usize, tr.end as usize, change.text.as_str());
                    current = next;
                } else {
                }
            },
            None => {
                let mut next = String::new();
                push_str(&mut next, change.text.as_str());
                current = next;
            },
        }
        assert(utf8(current@) =~= apply_changes(b0, changes@, i + 1));
        i += 1;
    }
    current
}

/// The byte range of line `n` of `bs`, as `str::lines` yields it: lines end
/// at a newline, which a carriage return before it joins; the empty piece
/// after a final newline is no line.
pub open spec fn line_range(bs: Seq<u8>, n: nat) -> Option<(int, int)> {
    match line_start(bs, n) {
        None => None,
        Some(s) => if s >= bs.len() {
            None
        } else {
            let e = match first_byte_from(bs, NEWLINE, s) {
                Some(k) => if k > s && bs[k - 1] == 0x0d {
                    k - 1
                } else {
                    k
                },
                None => bs.len() as int,
            };
            Some((s, e))
        },
    }
}

/// Line `n` of `text`, as `str::lines` yields it.
pub fn nth_line(text: &str, n: u32) -> (r: Option<&str>)
    ensures
        match r {
            Some(l) => line_range(text.spec_bytes(), n as nat) matches Some((s, e)) && l.spec_bytes()
                == text.spec_bytes().subrange(s, e),
            None => line_range(text.spec_bytes(), n as nat) is None,
        },
{
    let bytes = text.as_bytes();
    let ghost bs = bytes@;
    let mut i: usize = 0;
    let mut c: u32 = 0;
    let mut ls: usize = 0;
    while i < bytes.len() && c < n
        invariant
            bs == bytes@,
            bs == text.spec_bytes(),
            c <= n,
            ls <= i <= bs.len(),
            line_start(bs, c as nat) == Some(ls as int),
            ls > 0 ==> bs[ls - 1] == NEWLINE,
            forall|k: int| ls <= k < i ==> bs[k] != NEWLINE,
        decreases bs.len() - i,
    {
        if bytes[i] == NEWLINE {
            proof {
                lemma_line_start_next(bs, c as nat, ls as int, i as int);
            }
            c = c + 1;
            ls = i + 1;
        }
        i += 1;
    }
    if c < n {
        proof {
            lemma_line_start_beyond(bs, c as nat, ls as int, n as nat);
        }
        return None;
    }
    if ls >= bytes.len() {
        return None;
    }
    let rest = vstd::slice::slice_subrange(bytes, ls, bytes.len());
    proof {
        lemma_first_byte_bounds(rest@, NEWLINE, 0);
        lemma_first_byte_shift(bs, ls as int, 0);
    }
    let e = match first_byte_exec(rest, NEWLINE) {
        Some(k) => {
            let k = ls + k;
            if k > ls && bytes[k - 1] == 0x0d {
                k - 1
            } else {
                k
            }
        },
        None => bytes.len(),
    };
    proof {
        if ls > 0 {
            crate::strs::lemma_boundary_at_ascii(bs, ls as int - 1);
            crate::strs::lemma_boundary_after_ascii(bs, ls as int - 1);
        }
        if e < bs.len() {
            crate::strs::lemma_boundary_at_ascii(bs, e as int);
        } else {
            is_char_boundary_start_end_of_seq(bs);
        }
    }
    Some(substr(text, ls, e))
}

/// The first byte `b` of `bs` from `j + i` on, found in `bs[j..]` from `i` on.
proof fn lemma_first_byte_shift(bs: Seq<u8>, j: int, i: int)
    requires
        0 <= j <= bs.len(),
        0 <= i,
    ensures
        first_byte_from(bs.subrange(j, bs.len() as int), NEWLINE, i) == match first_byte_from(bs, NEWLINE, j + i) {
            Some(k) => Some(k - j),
            None => None::<int>,
        },
    decreases bs.len() - j - i,
{
    let rest = bs.subrange(j, bs.len() as int);
    if i < rest.len() {
        assert(rest[i] == bs[j + i]);
        if rest[i] != NEWLINE {
            lemma_first_byte_shift(bs, j, i + 1);
        }
    }
}

/// The previous line, by `str::lines`, is a rule header: it does not start
/// with a tab and holds a `:` but no `=`.
pub open spec fn after_rule_header(bs: Seq<u8>, position: Position) -> bool {
    let prev = match line_range(bs, (position.line - 1) as nat) {
        Some((s, e)) => bs.subrange(s, e),
        None => seq![],
    };
    !(prev.len() > 0 && prev[0] == 0x09) && prev.contains(0x3au8) && !prev.contains(0x3du8)
}

/// Formatting as a newline is typed at `position`: a tab inserted at the
/// cursor when the previous line is a rule header. Only a typed newline
/// past the first line is answered.
pub fn on_type_formatting(source_text: &str, position: Position, ch: &str) -> (r: Option<Vec<TextEdit>>)
    ensures
        match r {
            Some(edits) => ch@ == "\n"@ && position.line > 0 && after_rule_header(source_text.spec_bytes(), position)
                && edits@.len() == 1 && edits@[0].range == (Range { start: position, end: position })
                && edits@[0].new_text@ == "\t"@,
            None => !(ch@ == "\n"@ && position.line > 0 && after_rule_header(source_text.spec_bytes(), position)),
        },
{
    if !crate::strs::str_eq(ch, "\n") {
        return None;
    }
    if position.line == 0 {
        return None;
    }
    let prev = match nth_line(source_text, position.line - 1) {
        Some(l) => l,
        None => "",
    };
    proof {
        reveal_strlit("");
    }
    let pb = prev.as_bytes();
    let is_rule_header = !(pb.len() > 0 && pb[0] == 0x09) && bytes_contain(pb, 0x3a) && !bytes_contain(pb, 0x3d);
    if !is_rule_header {
        return None;
    }
    let mut tab = String::new();
    push_str(&mut tab, "\t");
    let mut edits: Vec<TextEdit> = Vec::new();
    edits.push(TextEdit { range: Range { start: position, end: position }, new_text: tab });
    Some(edits)
}

} // verus!
