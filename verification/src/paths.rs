//! Rendering file paths for the index: forward slashes and `file://` URIs.

use vstd::prelude::*;
use vstd::string::StringSliceAdditionalSpecFns;
use vstd::utf8::*;

use crate::strs::{lemma_boundary_after_ascii, lemma_boundary_at_ascii, lemma_first_byte_ascii, lemma_utf8_append, push_str, substr, utf8};

verus! {

broadcast use vstd::utf8::encode_utf8_valid_utf8, vstd::utf8::encode_utf8_decode_utf8;

pub const BACKSLASH: u8 = 0x5c;
pub const SLASH: u8 = 0x2f;

/// `bs` with every backslash turned into a slash.
pub open spec fn forward_slash_bytes(bs: Seq<u8>) -> Seq<u8> {
    bs.map_values(|b: u8| if b == BACKSLASH { SLASH } else { b })
}

/// The `file://` URI of a path: its slashes made forward, one leading slash
/// dropped, behind `file:///`.
pub open spec fn file_uri_bytes(path: Seq<u8>) -> Seq<u8> {
    let s = forward_slash_bytes(path);
    let rest = if s.len() > 0 && s[0] == SLASH {
        s.drop_first()
    } else {
        s
    };
    utf8("file:///"@) + rest
}

/// The encoding of `/` is the single byte `SLASH`.
proof fn lemma_slash_bytes()
    ensures
        utf8(seq!['/']) == seq![SLASH],
{
    let s = seq!['/'];
    assert(s.drop_first() =~= Seq::<char>::empty());
    assert(utf8(s.drop_first()) =~= Seq::<u8>::empty());
    lemma_first_byte_ascii(s, SLASH);
    assert(utf8(s) =~= seq![SLASH]);
}

/// `path` with every `\` replaced by `/`.
pub fn forward_slashes(path: &str) -> (r: String)
    ensures
        utf8(r@) == forward_slash_bytes(path.spec_bytes()),
{
    let bs = path.as_bytes();
    let ghost pb = path.spec_bytes();
    let mut out = String::new();
    let mut seg: usize = 0;
    let mut i: usize = 0;
    proof {
        reveal_strlit("/");
        assert(utf8(out@) =~= Seq::<u8>::empty());
        assert(forward_slash_bytes(pb.subrange(0, 0)) =~= Seq::<u8>::empty());
    }
    while i < bs.len()
        invariant
            bs@ == pb,
            pb == path.spec_bytes(),
            valid_utf8(pb),
            seg <= i <= pb.len(),
            is_char_boundary(pb, seg as int),
            utf8(out@) == forward_slash_bytes(pb.subrange(0, seg as int)),
            forall|k: int| seg <= k < i ==> pb[k] != BACKSLASH,
            "/"@ == seq!['/'],
        decreases pb.len() - i,
    {
        if bs[i] == BACKSLASH {
            proof {
                lemma_boundary_at_ascii(pb, i as int);
                lemma_boundary_after_ascii(pb, i as int);
            }
            let part = substr(path, seg, i);
            let ghost before = out@;
            push_str(&mut out, part);
            push_str(&mut out, "/");
            proof {
                lemma_utf8_append(before, part@);
                lemma_utf8_append(before + part@, "/"@);
                assert(out@ == before + part@ + "/"@);
                lemma_slash_bytes();
                assert(forward_slash_bytes(pb.subrange(seg as int, i as int)) =~= pb.subrange(seg as int, i as int));
                assert(forward_slash_bytes(pb.subrange(0, i + 1)) =~= forward_slash_bytes(pb.subrange(0, seg as int))
                    + pb.subrange(seg as int, i as int) + seq![SLASH]);
            }
            seg = i + 1;
        }
        i += 1;
    }
    proof {
        is_char_boundary_start_end_of_seq(pb);
    }
    let part = substr(path, seg, bs.len());
    let ghost before = out@;
    push_str(&mut out, part);
    proof {
        lemma_utf8_append(before, part@);
        assert(forward_slash_bytes(pb.subrange(seg as int, pb.len() as int)) =~= pb.subrange(seg as int, pb.len() as int));
        assert(forward_slash_bytes(pb) =~= forward_slash_bytes(pb.subrange(0, seg as int)) + pb.subrange(
            seg as int,
            pb.len() as int,
        ));
    }
    out
}

/// Render a path as a `file://` URI: `file:///` followed by the path with
/// forward slashes and without its leading slash.
pub fn path_to_file_uri(path: &str) -> (r: String)
    ensures
        utf8(r@) == file_uri_bytes(path.spec_bytes()),
{
    let s = forward_slashes(path);
    let sb = s.as_str().as_bytes();
    let ghost fb = forward_slash_bytes(path.spec_bytes());
    let mut out = String::new();
    push_str(&mut out, "file:///");
    let ghost prefix = out@;
    proof {
        assert(prefix == "file:///"@);
    }
    if sb.len() > 0 && sb[0] == SLASH {
        proof {
            lemma_boundary_after_ascii(fb, 0);
            is_char_boundary_start_end_of_seq(fb);
        }
        let rest = substr(s.as_str(), 1, sb.len());
        push_str(&mut out, rest);
        proof {
            lemma_utf8_append(prefix, rest@);
            assert(rest.spec_bytes() =~= fb.drop_first());
        }
    } else {
        push_str(&mut out, s.as_str());
        proof {
            lemma_utf8_append(prefix, s@);
        }
    }
    out
}

} // verus!
