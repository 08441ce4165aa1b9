//! Document highlights for Makefiles.
//!
//! Highlights all occurrences of the symbol under the cursor within the same file.

use vstd::prelude::*;
use vstd::string::StringSliceAdditionalSpecFns;

use crate::makefile::Makefile;
use crate::position::{Position, Range};
use crate::references::{find_references, locations_view, reference_ranges, sorted_ranges};

verus! {

/// How an occurrence is used.
#[derive(Debug, Clone, Copy, PartialEq, Eq, Structural)]
pub enum DocumentHighlightKind {
    Text,
    Read,
    Write,
}

/// An occurrence of the symbol under the cursor.
#[derive(Debug, Clone, Copy, PartialEq, Eq, Structural)]
pub struct DocumentHighlight {
    pub range: Range,
    pub kind: Option<DocumentHighlightKind>,
}

/// The ranges of the highlights.
pub open spec fn highlight_ranges(v: Seq<DocumentHighlight>) -> Seq<Range> {
    v.map_values(|h: DocumentHighlight| h.range)
}

/// Find all highlights for the symbol at the given position.
///
/// Returns document highlights with `Write` kind for the first occurrence
/// (typically the definition) and `Read` kind for the others.
pub fn get_highlights(makefile: &Makefile, source_text: &str, position: Position, uri: &str) -> (r: Vec<DocumentHighlight>)
    requires
        source_text.spec_bytes().len() <= u32::MAX,
    ensures
        sorted_ranges(
            highlight_ranges(r@),
            reference_ranges(source_text.spec_bytes(), source_text@, makefile@, position, true),
        ),
        forall|i: int|
            0 <= i < r@.len() ==> (#[trigger] r@[i]).kind == Some(
                if i == 0 {
                    DocumentHighlightKind::Write
                } else {
                    DocumentHighlightKind::Read
                },
            ),
{
    let locations = find_references(makefile, source_text, position, uri, true);
    let ghost lv = locations_view(locations@);
    let mut out: Vec<DocumentHighlight> = Vec::new();
    let mut i: usize = 0;
    while i < locations.len()
        invariant
            i <= locations@.len(),
            lv == locations_view(locations@),
            lv.len() == locations@.len(),
            out@.len() == i,
            highlight_ranges(out@) == lv.subrange(0, i as int),
            forall|k: int|
                0 <= k < out@.len() ==> (#[trigger] out@[k]).kind == Some(
                    if k == 0 {
                        DocumentHighlightKind::Write
                    } else {
                        DocumentHighlightKind::Read
                    },
                ),
        decreases locations@.len() - i,
    {
        let ghost before = out@;
        let kind = if i == 0 {
            DocumentHighlightKind::Write
        } else {
            DocumentHighlightKind::Read
        };
        out.push(DocumentHighlight { range: locations[i].range, kind: Some(kind) });
        assert(lv[i as int] == locations@[i as int].range);
        assert forall|k: int| 0 <= k < i + 1 implies #[trigger] highlight_ranges(out@)[k] == lv.subrange(0, i + 1)[k] by {
            if k < i {
                assert(out@[k] == before[k]);
                assert(highlight_ranges(before)[k] == lv.subrange(0, i as int)[k]);
            }
        }
        assert(highlight_ranges(out@) =~= lv.subrange(0, i + 1));
        assert forall|k: int| 0 <= k < out@.len() implies (#[trigger] out@[k]).kind == Some(
            if k == 0 {
                DocumentHighlightKind::Write
            } else {
                DocumentHighlightKind::Read
            },
        ) by {
            if k < i {
                assert(out@[k] == before[k]);
            }
        }
        i += 1;
    }
    assert(lv.subrange(0, i as int) =~= lv);
    out
}

} // verus!
