//! Selection range support for Makefiles.
//!
//! Provides smart expand/shrink selection: from word to enclosing expression,
//! to enclosing item (rule/variable/conditional), to the whole file.

use vstd::prelude::*;
use vstd::string::StringSliceAdditionalSpecFns;

use crate::makefile::{Makefile, NodeInfo};
use crate::position::{lsp_range, spec_position_to_offset, text_range_to_lsp_range, try_position_to_offset, Position, Range, TextRange};

verus! {

/// A range with the ranges that enclose it, innermost first.
pub struct SelectionRange {
    pub range: Range,
    pub parent: Option<Box<SelectionRange>>,
}

/// The ranges of a selection chain, from the innermost out.
pub open spec fn chain_of(s: SelectionRange) -> Seq<Range>
    decreases s,
{
    seq![s.range] + match s.parent {
        Some(p) => chain_of(*p),
        None => seq![],
    }
}

/// The byte range of the leaf token at byte `offset` of `text` (the right
/// one where two tokens meet), as rowan's `token_at_offset(..).right_biased()`
/// finds it on the parse of `text`.
pub uninterp spec fn token_range_at(text: Seq<char>, offset: usize) -> Option<TextRange>;

/// `SyntaxNode::token_at_offset` of rowan on the root of the parse of
/// `text` by `makefile_lossless`, then `right_biased`. The root spans the
/// whole text, so `offset` must not pass its end (rowan asserts it). Which
/// token it finds is named, not stated.
#[verifier::external_body]
fn token_at(text: &str, offset: usize) -> (r: Option<TextRange>)
    requires
        text.spec_bytes().len() <= u32::MAX,
        offset <= text.spec_bytes().len(),
    ensures
        r == token_range_at(text@, offset),
{
    let tree = makefile_lossless::Makefile::parse(text).tree();
    let offset = text_size::TextSize::from(offset as u32);
    rowan::ast::AstNode::syntax(&tree).token_at_offset(offset).right_biased().map(|t| TextRange {
        start: t.text_range().start().into(),
        end: t.text_range().end().into(),
    })
}

/// `o` lies in `r`, its ends included.
pub open spec fn contains_inclusive(r: TextRange, o: int) -> bool {
    r.start <= o <= r.end
}

/// The range of the root: the first node in preorder.
pub open spec fn root_range(nodes: Seq<NodeInfo>) -> TextRange {
    if nodes.len() > 0 {
        nodes[0].range
    } else {
        TextRange { start: 0, end: 0 }
    }
}

/// Index of the first child of node `i`, from index `j` on, whose range
/// holds `o`: the children of a node are the nodes one level deeper that
/// follow it, up to the next node that is not deeper than it.
pub open spec fn child_containing(nodes: Seq<NodeInfo>, i: int, o: int, j: int) -> Option<int>
    decreases nodes.len() - j,
{
    if j < 0 || j >= nodes.len() || i < 0 || i >= nodes.len() || nodes[j].depth <= nodes[i].depth {
        None
    } else if nodes[j].depth == nodes[i].depth + 1 && contains_inclusive(nodes[j].range, o) {
        Some(j)
    } else {
        child_containing(nodes, i, o, j + 1)
    }
}

pub proof fn lemma_child_after(nodes: Seq<NodeInfo>, i: int, o: int, j: int)
    ensures
        child_containing(nodes, i, o, j) matches Some(c) ==> j <= c < nodes.len(),
    decreases nodes.len() - j,
{
    if 0 <= j < nodes.len() && 0 <= i < nodes.len() && nodes[j].depth > nodes[i].depth && !(nodes[j].depth
        == nodes[i].depth + 1 && contains_inclusive(nodes[j].range, o)) {
        lemma_child_after(nodes, i, o, j + 1);
    }
}

/// Walking down from node `i` into the first child that holds `o`, as long
/// as there is one: `acc` followed by the range of each node entered that
/// differs from its parent's.
pub open spec fn descend(nodes: Seq<NodeInfo>, i: int, o: int, acc: Seq<TextRange>) -> Seq<TextRange>
    decreases nodes.len() - i,
{
    if i < 0 || i >= nodes.len() {
        acc
    } else {
        match child_containing(nodes, i, o, i + 1) {
            None => acc,
            Some(c) => {
                proof {
                    lemma_child_after(nodes, i, o, i + 1);
                }
                descend(
                    nodes,
                    c,
                    o,
                    if nodes[c].range != nodes[i].range {
                        acc.push(nodes[c].range)
                    } else {
                        acc
                    },
                )
            },
        }
    }
}

/// The child found holds `o`, one level below node `i`.
proof fn lemma_child_holds(nodes: Seq<NodeInfo>, i: int, o: int, j: int)
    ensures
        child_containing(nodes, i, o, j) matches Some(c) ==> nodes[c].depth == nodes[i].depth + 1
            && contains_inclusive(nodes[c].range, o),
    decreases nodes.len() - j,
{
    if 0 <= j < nodes.len() && 0 <= i < nodes.len() && nodes[j].depth > nodes[i].depth && !(nodes[j].depth
        == nodes[i].depth + 1 && contains_inclusive(nodes[j].range, o)) {
        lemma_child_holds(nodes, i, o, j + 1);
    }
}

/// Descending from node `i`, whose range ends `acc`, keeps `acc` and adds
/// ranges that each hold `o` and differ from the one before.
proof fn lemma_descend_holds(nodes: Seq<NodeInfo>, i: int, o: int, acc: Seq<TextRange>)
    requires
        0 <= i < nodes.len() ==> acc.len() >= 1 && acc.last() == nodes[i].range,
    ensures
        descend(nodes, i, o, acc).len() >= acc.len(),
        descend(nodes, i, o, acc).subrange(0, acc.len() as int) == acc,
        forall|k: int|
            acc.len() <= k < descend(nodes, i, o, acc).len() ==> contains_inclusive(
                #[trigger] descend(nodes, i, o, acc)[k],
                o,
            ) && descend(nodes, i, o, acc)[k] != descend(nodes, i, o, acc)[k - 1],
    decreases nodes.len() - i,
{
    if 0 <= i < nodes.len() {
        match child_containing(nodes, i, o, i + 1) {
            None => {
                assert(acc.subrange(0, acc.len() as int) =~= acc);
            },
            Some(c) => {
                lemma_child_after(nodes, i, o, i + 1);
                lemma_child_holds(nodes, i, o, i + 1);
                let next = if nodes[c].range != nodes[i].range {
                    acc.push(nodes[c].range)
                } else {
                    acc
                };
                lemma_descend_holds(nodes, c, o, next);
                let rs = descend(nodes, c, o, next);
                assert(descend(nodes, i, o, acc) == rs);
                assert(rs.subrange(0, acc.len() as int) =~= next.subrange(0, acc.len() as int));
                assert(next.subrange(0, acc.len() as int) =~= acc);
                assert forall|k: int| acc.len() <= k < rs.len() implies contains_inclusive(#[trigger] rs[k], o)
                    && rs[k] != rs[k - 1] by {
                    if k < next.len() {
                        assert(rs[k] == rs.subrange(0, next.len() as int)[k]);
                        assert(rs[k - 1] == rs.subrange(0, next.len() as int)[k - 1]);
                    }
                }
            },
        }
    } else {
        assert(acc.subrange(0, acc.len() as int) =~= acc);
    }
}

/// Going down the tree from the root toward byte `o`, every node entered
/// holds `o`, and no range repeats the one before it.
pub proof fn lemma_selection_descent(nodes: Seq<NodeInfo>, o: int)
    ensures
        ({
            let rs = descend(nodes, 0, o, seq![root_range(nodes)]);
            &&& rs.len() >= 1
            &&& rs[0] == root_range(nodes)
            &&& forall|k: int| 1 <= k < rs.len() ==> contains_inclusive(#[trigger] rs[k], o) && rs[k] != rs[k - 1]
        }),
{
    let acc = seq![root_range(nodes)];
    lemma_descend_holds(nodes, 0, o, acc);
    let rs = descend(nodes, 0, o, acc);
    assert(rs[0] == rs.subrange(0, 1)[0]);
}

/// The byte ranges around `position`, outermost first: the root, the
/// nodes entered on the way down, then the token there when its range
/// differs from the last one; none for a position outside the text.
pub open spec fn selection_byte_ranges(text: Seq<char>, bs: Seq<u8>, nodes: Seq<NodeInfo>, position: Position) -> Seq<TextRange> {
    let root = seq![root_range(nodes)];
    match spec_position_to_offset(bs, position) {
        None => seq![],
        Some(o) => {
            let rs = descend(nodes, 0, o, root);
            match token_range_at(text, o as usize) {
                Some(t) => if t != rs.last() {
                    rs.push(t)
                } else {
                    rs
                },
                None => rs,
            }
        },
    }
}

/// The selection chain of the byte ranges, innermost first, ending with
/// the root range once more (the chain starts from it).
pub open spec fn spec_selection_chain(bs: Seq<u8>, ranges: Seq<TextRange>, root: TextRange) -> Seq<Range> {
    ranges.reverse().map_values(|r: TextRange| lsp_range(bs, r)) + seq![lsp_range(bs, root)]
}

/// The children of node `i` from index `j` on.
fn child_containing_exec(nodes: &Vec<NodeInfo>, i: usize, o: usize, j: usize) -> (r: Option<usize>)
    requires
        i < nodes@.len(),
        i < j,
    ensures
        match r {
            Some(c) => c < nodes@.len() && child_containing(nodes@, i as int, o as int, j as int) == Some(c as int),
            None => child_containing(nodes@, i as int, o as int, j as int) is None,
        },
{
    let d = nodes[i].depth;
    let mut k = j;
    while k < nodes.len() && nodes[k].depth > d
        invariant
            i < nodes@.len(),
            d == nodes@[i as int].depth,
            j <= k,
            child_containing(nodes@, i as int, o as int, j as int) == child_containing(nodes@, i as int, o as int, k as int),
        decreases nodes@.len() - k,
    {
        let nk = nodes[k];
        if nk.depth - 1 == d && nk.range.start as usize <= o && o <= nk.range.end as usize {
            return Some(k);
        }
        k += 1;
    }
    None
}

/// The selection chain at `position`, innermost first.
fn selection_range_at(makefile: &Makefile, source_text: &str, position: Position) -> (r: SelectionRange)
    requires
        source_text.spec_bytes().len() <= u32::MAX,
    ensures
        chain_of(r) == spec_selection_chain(
            source_text.spec_bytes(),
            selection_byte_ranges(source_text@, source_text.spec_bytes(), makefile@.nodes, position),
            root_range(makefile@.nodes),
        ),
{
    let ghost bs = source_text.spec_bytes();
    let ghost nv = makefile@.nodes;
    let nodes = &makefile.nodes;
    let root = if nodes.len() > 0 {
        nodes[0].range
    } else {
        TextRange { start: 0, end: 0 }
    };
    let mut ranges: Vec<TextRange> = Vec::new();
    if let Some(offset) = try_position_to_offset(source_text, position) {
        ranges.push(root);
        proof {
            crate::position::lemma_position_to_offset_bounds(bs, position);
        }
        if nodes.len() > 0 {
            let mut node: usize = 0;
            let mut done = false;
            let ghost start = ranges@;
            while !done
                invariant
                    nv == nodes@,
                    node < nodes@.len(),
                    nodes@.len() <= usize::MAX,
                    ranges@.len() >= 1,
                    descend(nv, 0, offset as int, start) == descend(nv, node as int, offset as int, ranges@),
                    done ==> child_containing(nv, node as int, offset as int, node + 1) is None,
                decreases nodes@.len() - node, if done { 0int } else { 1int },
            {
                match child_containing_exec(nodes, node, offset, node + 1) {
                    Some(c) => {
                        proof {
                            lemma_child_after(nv, node as int, offset as int, node + 1);
                        }
                        if nodes[c].range != nodes[node].range {
                            ranges.push(nodes[c].range);
                        }
                        node = c;
                    },
                    None => {
                        done = true;
                    },
                }
            }
        }
        assert(ranges@.len() >= 1);
        match token_at(source_text, offset) {
            Some(t) => {
                let last = ranges[ranges.len() - 1];
                if t != last {
                    ranges.push(t);
                }
            },
            None => {},
        }
    }
    let mut result = SelectionRange { range: text_range_to_lsp_range(source_text, root), parent: None };
    let mut i: usize = 0;
    while i < ranges.len()
        invariant
            i <= ranges@.len(),
            bs == source_text.spec_bytes(),
            bs.len() <= u32::MAX,
            chain_of(result) == spec_selection_chain(bs, ranges@.subrange(0, i as int), root),
        decreases ranges@.len() - i,
    {
        let lsp = text_range_to_lsp_range(source_text, ranges[i]);
        let ghost before = chain_of(result);
        result = SelectionRange { range: lsp, parent: Some(Box::new(result)) };
        assert(ranges@.subrange(0, i + 1).reverse() =~= seq![ranges@[i as int]] + ranges@.subrange(0, i as int).reverse());
        assert(chain_of(result) =~= spec_selection_chain(bs, ranges@.subrange(0, i + 1), root));
        i += 1;
    }
    assert(ranges@.subrange(0, i as int) =~= ranges@);
    result
}

/// Get selection ranges for the given positions: for each position, a
/// nested chain of selection ranges from the innermost node to the root.
pub fn get_selection_ranges(makefile: &Makefile, source_text: &str, positions: &Vec<Position>) -> (r: Vec<SelectionRange>)
    requires
        source_text.spec_bytes().len() <= u32::MAX,
    ensures
        r@.len() == positions@.len(),
        forall|i: int|
            0 <= i < r@.len() ==> chain_of(#[trigger] r@[i]) == spec_selection_chain(
                source_text.spec_bytes(),
                selection_byte_ranges(source_text@, source_text.spec_bytes(), makefile@.nodes, positions@[i]),
                root_range(makefile@.nodes),
            ),
{
    let mut out: Vec<SelectionRange> = Vec::new();
    let mut i: usize = 0;
    while i < positions.len()
        invariant
            i <= positions@.len(),
            source_text.spec_bytes().len() <= u32::MAX,
            out@.len() == i,
            forall|k: int|
                0 <= k < i ==> chain_of(#[trigger] out@[k]) == spec_selection_chain(
                    source_text.spec_bytes(),
                    selection_byte_ranges(source_text@, source_text.spec_bytes(), makefile@.nodes, positions@[k]),
                    root_range(makefile@.nodes),
                ),
        decreases positions@.len() - i,
    {
        let s = selection_range_at(makefile, source_text, positions[i]);
        out.push(s);
        i += 1;
    }
    out
}

} // verus!
