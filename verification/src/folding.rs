//! Folding range generation for Makefiles.

use vstd::prelude::*;
use vstd::string::StringSliceAdditionalSpecFns;

use crate::makefile::{Makefile, RuleView, VariableDefinitionView};
use crate::position::{offset_to_position, spec_offset_to_position, TextRange};

verus! {

/// The kind of a folding range.
#[derive(Debug, Clone, Copy, PartialEq, Eq, Structural)]
pub enum FoldingRangeKind {
    Comment,
    Imports,
    Region,
}

/// A foldable span of lines.
#[derive(Debug, Clone, Copy, PartialEq, Eq, Structural)]
pub struct FoldingRange {
    pub start_line: u32,
    pub start_character: Option<u32>,
    pub end_line: u32,
    pub end_character: Option<u32>,
    pub kind: Option<FoldingRangeKind>,
}

/// The folding range of a byte range, if it spans more than one line.
pub open spec fn folding_range_of(bs: Seq<u8>, range: TextRange, kind: FoldingRangeKind) -> Option<FoldingRange> {
    let start = spec_offset_to_position(bs, range.start as int);
    let end = spec_offset_to_position(bs, range.end as int);
    if end.line > start.line {
        Some(
            FoldingRange {
                start_line: start.line,
                start_character: Some(start.character),
                end_line: end.line,
                end_character: Some(end.character),
                kind: Some(kind),
            },
        )
    } else {
        None
    }
}

/// The folding ranges of the byte ranges that span more than one line.
pub open spec fn folding_ranges_of(bs: Seq<u8>, ranges: Seq<TextRange>, kind: FoldingRangeKind) -> Seq<FoldingRange>
    decreases ranges.len(),
{
    if ranges.len() == 0 {
        seq![]
    } else {
        folding_ranges_of(bs, ranges.drop_last(), kind) + match folding_range_of(bs, ranges.last(), kind) {
            Some(f) => seq![f],
            None => seq![],
        }
    }
}

/// The byte ranges of the rules.
pub open spec fn rule_ranges(rules: Seq<RuleView>) -> Seq<TextRange> {
    rules.map_values(|r: RuleView| r.range)
}

/// The lines of a variable definition: its byte range without the newline
/// that ends it, so that a one-line definition does not fold.
pub open spec fn definition_fold_range(bs: Seq<u8>, r: TextRange) -> TextRange {
    if r.start < r.end && r.end <= bs.len() && bs[r.end - 1] == 0x0au8 {
        TextRange { start: r.start, end: (r.end - 1) as u32 }
    } else {
        r
    }
}

/// The fold ranges of the variable definitions.
pub open spec fn definition_ranges(bs: Seq<u8>, vars: Seq<VariableDefinitionView>) -> Seq<TextRange> {
    vars.map_values(|v: VariableDefinitionView| definition_fold_range(bs, v.range))
}

/// Create a folding range from a text range, returning `None` if it's a single line.
pub fn make_folding_range(source_text: &str, text_range: TextRange, kind: FoldingRangeKind) -> (r: Option<FoldingRange>)
    requires
        source_text.spec_bytes().len() <= u32::MAX,
    ensures
        r == folding_range_of(source_text.spec_bytes(), text_range, kind),
{
    let start = offset_to_position(source_text, text_range.start);
    let end = offset_to_position(source_text, text_range.end);
    if end.line > start.line {
        Some(
            FoldingRange {
                start_line: start.line,
                start_character: Some(start.character),
                end_line: end.line,
                end_character: Some(end.character),
                kind: Some(kind),
            },
        )
    } else {
        None
    }
}

/// Appends the folding ranges of `ranges`.
fn push_folding_ranges(out: &mut Vec<FoldingRange>, source_text: &str, ranges: &Vec<TextRange>, kind: FoldingRangeKind)
    requires
        source_text.spec_bytes().len() <= u32::MAX,
    ensures
        final(out)@ == old(out)@ + folding_ranges_of(source_text.spec_bytes(), ranges@, kind),
{
    let ghost start = out@;
    assert(start + folding_ranges_of(source_text.spec_bytes(), ranges@.subrange(0, 0), kind) =~= start);
    let mut i: usize = 0;
    while i < ranges.len()
        invariant
            i <= ranges@.len(),
            source_text.spec_bytes().len() <= u32::MAX,
            out@ == start + folding_ranges_of(source_text.spec_bytes(), ranges@.subrange(0, i as int), kind),
        decreases ranges@.len() - i,
    {
        assert(ranges@.subrange(0, i + 1).drop_last() =~= ranges@.subrange(0, i as int));
        match make_folding_range(source_text, ranges[i], kind) {
            Some(f) => out.push(f),
            None => {},
        }
        assert(out@ =~= start + folding_ranges_of(source_text.spec_bytes(), ranges@.subrange(0, i + 1), kind));
        i += 1;
    }
    assert(ranges@.subrange(0, i as int) =~= ranges@);
}

/// Generate folding ranges for a Makefile.
///
/// Foldable regions: multi-line rules, multi-line variable definitions
/// (`define` blocks and continued values), conditionals, and consecutive
/// comment blocks.
pub fn generate_folding_ranges(makefile: &Makefile, source_text: &str) -> (r: Vec<FoldingRange>)
    requires
        source_text.spec_bytes().len() <= u32::MAX,
    ensures
        r@ == folding_ranges_of(source_text.spec_bytes(), rule_ranges(makefile@.rules), FoldingRangeKind::Region)
            + folding_ranges_of(
            source_text.spec_bytes(),
            definition_ranges(source_text.spec_bytes(), makefile@.variables),
            FoldingRangeKind::Region,
        ) + folding_ranges_of(source_text.spec_bytes(), makefile@.conditionals, FoldingRangeKind::Region)
            + folding_ranges_of(source_text.spec_bytes(), makefile@.comment_blocks, FoldingRangeKind::Comment),
{
    let ghost bs = source_text.spec_bytes();
    let mut rule_ranges_exec: Vec<TextRange> = Vec::new();
    let mut i: usize = 0;
    while i < makefile.rules.len()
        invariant
            i <= makefile.rules@.len(),
            rule_ranges_exec@ == rule_ranges(makefile@.rules).subrange(0, i as int),
        decreases makefile.rules@.len() - i,
    {
        assert(makefile@.rules[i as int] == makefile.rules@[i as int]@);
        rule_ranges_exec.push(makefile.rules[i].range);
        assert(rule_ranges_exec@ =~= rule_ranges(makefile@.rules).subrange(0, i + 1));
        i += 1;
    }
    assert(rule_ranges(makefile@.rules).subrange(0, i as int) =~= rule_ranges(makefile@.rules));
    let bytes = source_text.as_bytes();
    let mut def_ranges: Vec<TextRange> = Vec::new();
    let mut j: usize = 0;
    while j < makefile.variables.len()
        invariant
            j <= makefile.variables@.len(),
            bytes@ == bs,
            def_ranges@ == definition_ranges(bs, makefile@.variables).subrange(0, j as int),
        decreases makefile.variables@.len() - j,
    {
        assert(makefile@.variables[j as int] == makefile.variables@[j as int]@);
        let r = makefile.variables[j].range;
        let fold = if r.start < r.end && (r.end as usize) <= bytes.len() && bytes[(r.end - 1) as usize] == 0x0a {
            TextRange { start: r.start, end: r.end - 1 }
        } else {
            r
        };
        def_ranges.push(fold);
        assert(def_ranges@ =~= definition_ranges(bs, makefile@.variables).subrange(0, j + 1));
        j += 1;
    }
    assert(definition_ranges(bs, makefile@.variables).subrange(0, j as int) =~= definition_ranges(bs, makefile@.variables));
    let mut ranges: Vec<FoldingRange> = Vec::new();
    push_folding_ranges(&mut ranges, source_text, &rule_ranges_exec, FoldingRangeKind::Region);
    push_folding_ranges(&mut ranges, source_text, &def_ranges, FoldingRangeKind::Region);
    push_folding_ranges(&mut ranges, source_text, &makefile.conditionals, FoldingRangeKind::Region);
    push_folding_ranges(&mut ranges, source_text, &makefile.comment_blocks, FoldingRangeKind::Comment);
    ranges
}

} // verus!
