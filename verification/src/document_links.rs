//! Document links for Makefiles.
//!
//! Makes `include`/`-include`/`sinclude` paths clickable.

use vstd::prelude::*;
use vstd::string::StringSliceAdditionalSpecFns;
use vstd::utf8::*;

use crate::completion::{trim, trimmed};
use crate::makefile::{ItemView, Item, Makefile};
use crate::position::{lsp_range, text_range_to_lsp_range, Range};
use crate::strs::{bytes_contain, lemma_boundary_at_ascii, push_str, substr, utf8};

verus! {

broadcast use {vstd::utf8::encode_utf8_decode_utf8, vstd::utf8::encode_utf8_valid_utf8};

/// A link from a range of the document to another document.
pub struct DocumentLink {
    pub range: Range,
    /// The URI the link opens.
    pub target: Option<String>,
    pub tooltip: Option<String>,
}

pub struct DocumentLinkView {
    pub range: Range,
    pub target: Option<Seq<char>>,
    pub tooltip: Option<Seq<char>>,
}

impl View for DocumentLink {
    type V = DocumentLinkView;

    open spec fn view(&self) -> DocumentLinkView {
        DocumentLinkView {
            range: self.range,
            target: match self.target {
                Some(t) => Some(t@),
                None => None,
            },
            tooltip: match self.tooltip {
                Some(t) => Some(t@),
                None => None,
            },
        }
    }
}

pub open spec fn links_view(v: Seq<DocumentLink>) -> Seq<DocumentLinkView> {
    v.map_values(|l: DocumentLink| l@)
}

/// Whether `fluent_uri` parses `s` as a URI (RFC 3986).
pub uninterp spec fn uri_parses(s: Seq<char>) -> bool;

/// The path component of the URI `s`, as `fluent_uri` splits it.
pub uninterp spec fn uri_path(s: Seq<char>) -> Seq<char>;

/// `Uri::from_str` of `ls_types` (`fluent_uri::Uri::parse`): whether `s`
/// is a URI. The grammar it checks is named by `uri_parses`, not stated.
#[verifier::external_body]
fn is_uri(s: &str) -> (r: bool)
    ensures
        r == uri_parses(s@),
{
    s.parse::<tower_lsp_server::ls_types::Uri>().is_ok()
}

/// `Uri::from_str` followed by `Uri::path`: the path of the URI `s`, or
/// `None` when `s` is not a URI. The path is named by `uri_path`.
#[verifier::external_body]
fn path_of_uri(s: &str) -> (r: Option<String>)
    ensures
        match r {
            Some(p) => uri_parses(s@) && p@ == uri_path(s@),
            None => !uri_parses(s@),
        },
{
    match s.parse::<tower_lsp_server::ls_types::Uri>() {
        Ok(u) => Some(u.path().as_str().to_owned()),
        Err(_) => None,
    }
}

/// Index of the last byte `b` of `bs`.
pub open spec fn last_byte_index(bs: Seq<u8>, b: u8) -> Option<int>
    decreases bs.len(),
{
    if bs.len() == 0 {
        None
    } else if bs.last() == b {
        Some(bs.len() - 1)
    } else {
        last_byte_index(bs.drop_last(), b)
    }
}

/// The directory of a path: what precedes its last `/`, or `.`.
pub open spec fn base_dir(path: Seq<char>) -> Seq<char> {
    match last_byte_index(utf8(path), 0x2f) {
        Some(i) => decode_utf8(utf8(path).subrange(0, i)),
        None => "."@,
    }
}

/// The link of an include item, for a document in directory `dir`: the
/// trimmed path, unless it is empty or holds a `$`, resolved against `dir`
/// unless it starts with `/`, as a `file://` URI that must parse.
pub open spec fn include_link(bs: Seq<u8>, dir: Seq<char>, item: ItemView) -> Option<DocumentLinkView> {
    match item {
        ItemView::Include { path: Some(p), path_range: Some(pr), .. } => {
            let tb = trimmed(utf8(p));
            let t = decode_utf8(tb);
            if tb.len() == 0 || tb.contains(0x24u8) {
                None
            } else {
                let target = "file://"@ + if tb[0] == 0x2f {
                    t
                } else {
                    dir + "/"@ + t
                };
                if uri_parses(target) {
                    Some(DocumentLinkView { range: lsp_range(bs, pr), target: Some(target), tooltip: Some("Open "@ + t) })
                } else {
                    None
                }
            }
        },
        _ => None,
    }
}

/// The links of the include items, in order.
pub open spec fn include_links(bs: Seq<u8>, dir: Seq<char>, items: Seq<ItemView>) -> Seq<DocumentLinkView>
    decreases items.len(),
{
    if items.len() == 0 {
        seq![]
    } else {
        include_links(bs, dir, items.drop_last()) + match include_link(bs, dir, items.last()) {
            Some(l) => seq![l],
            None => seq![],
        }
    }
}

/// The links of a document with URI `uri`: none when `uri` is not a URI.
pub open spec fn spec_document_links(bs: Seq<u8>, uri: Seq<char>, items: Seq<ItemView>) -> Seq<DocumentLinkView> {
    if uri_parses(uri) {
        include_links(bs, base_dir(uri_path(uri)), items)
    } else {
        seq![]
    }
}

/// The directory of `path`.
fn base_dir_of(path: &str) -> (r: &str)
    ensures
        r@ == base_dir(path@),
{
    let bytes = path.as_bytes();
    let ghost bs = bytes@;
    let mut i = bytes.len();
    assert(bs.subrange(0, i as int) =~= bs);
    while i > 0 && bytes[i - 1] != 0x2f
        invariant
            i <= bs.len(),
            bytes@ == bs,
            last_byte_index(bs, 0x2f) == last_byte_index(bs.subrange(0, i as int), 0x2f),
        decreases i,
    {
        assert(bs.subrange(0, i as int).drop_last() =~= bs.subrange(0, i - 1));
        i -= 1;
    }
    if i == 0 {
        return ".";
    }
    assert(bs.subrange(0, i as int).last() == 0x2f);
    proof {
        lemma_boundary_at_ascii(bs, i - 1);
    }
    substr(path, 0, i - 1)
}

/// The link of one include item.
fn include_link_exec(source_text: &str, dir: &str, item: &Item) -> (r: Option<DocumentLink>)
    requires
        source_text.spec_bytes().len() <= u32::MAX,
    ensures
        match r {
            Some(l) => include_link(source_text.spec_bytes(), dir@, item@) == Some(l@),
            None => include_link(source_text.spec_bytes(), dir@, item@) is None,
        },
{
    let (p, pr) = match item {
        Item::Include { path: Some(p), path_range: Some(pr), .. } => (p, pr),
        _ => {
            return None;
        },
    };
    let t = trim(p.as_str());
    let tb = t.as_bytes();
    let ghost tv = trimmed(utf8(p@));
    assert(tb@ == tv);
    assert(t@ == decode_utf8(tv));
    if tb.len() == 0 || bytes_contain(tb, 0x24) {
        return None;
    }
    let ghost full = if tv[0] == 0x2f {
        t@
    } else {
        dir@ + "/"@ + t@
    };
    let mut target = String::new();
    push_str(&mut target, "file://");
    if tb[0] == 0x2f {
        push_str(&mut target, t);
    } else {
        push_str(&mut target, dir);
        push_str(&mut target, "/");
        push_str(&mut target, t);
    }
    assert(target@ =~= "file://"@ + full);
    if !is_uri(target.as_str()) {
        return None;
    }
    let mut tooltip = String::new();
    push_str(&mut tooltip, "Open ");
    push_str(&mut tooltip, t);
    assert(tooltip@ =~= "Open "@ + t@);
    let range = text_range_to_lsp_range(source_text, *pr);
    Some(DocumentLink { range, target: Some(target), tooltip: Some(tooltip) })
}

/// Generate document links for include directives.
///
/// Resolves include paths relative to the directory of the document
/// `document_uri`; a `document_uri` that is not a URI has no links.
pub fn get_document_links(makefile: &Makefile, source_text: &str, document_uri: &str) -> (r: Vec<DocumentLink>)
    requires
        source_text.spec_bytes().len() <= u32::MAX,
    ensures
        links_view(r@) == spec_document_links(source_text.spec_bytes(), document_uri@, makefile@.items),
{
    let mut links: Vec<DocumentLink> = Vec::new();
    let path = match path_of_uri(document_uri) {
        Some(p) => p,
        None => {
            assert(links_view(links@) =~= seq![]);
            return links;
        },
    };
    let dir = base_dir_of(path.as_str());
    let ghost bs = source_text.spec_bytes();
    let ghost items = makefile@.items;
    let mut i: usize = 0;
    while i < makefile.items.len()
        invariant
            i <= makefile.items@.len(),
            bs == source_text.spec_bytes(),
            bs.len() <= u32::MAX,
            items == makefile@.items,
            links_view(links@) == include_links(bs, dir@, items.subrange(0, i as int)),
        decreases makefile.items@.len() - i,
    {
        assert(items[i as int] == makefile.items@[i as int]@);
        assert(items.subrange(0, i + 1).drop_last() =~= items.subrange(0, i as int));
        let ghost before = links_view(links@);
        match include_link_exec(source_text, dir, &makefile.items[i]) {
            Some(l) => {
                links.push(l);
                assert(links_view(links@) =~= before + seq![links@.last()@]);
            },
            None => {
                assert(before + seq![] =~= before);
            },
        }
        i += 1;
    }
    assert(items.subrange(0, i as int) =~= items);
    links
}

} // verus!
